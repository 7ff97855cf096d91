//! Questions on the terminal and how their answers are read.

use crate::style::{paint, painted, TextStyle};
use crate::text::{
    decimal, is_digit, law_numbers_read_back, law_trimming_takes_off_blanks, lowercased, number_of,
    parse_number, same, to_lowercase, trim, trimmed, white_space,
};
use vstd::prelude::*;

verus! {

/// The words an answer is compared with, in the user's language.
#[derive(Debug)]
pub struct AnswerWords {
    pub y: String,
    pub yes: String,
    pub e: String,
}

/// Whether a word says yes.
pub open spec fn says_yes(words: AnswerWords, w: Seq<char>) -> bool {
    w == words.y@ || w == words.yes@
}

/// The answer to a yes or no question: yes if it says so, the default if it is
/// blank, no otherwise.
pub open spec fn answer_of(words: AnswerWords, input: Seq<char>, default: bool) -> bool {
    let w = trimmed(lowercased(input));
    says_yes(words, w) || (w.len() == 0 && default)
}

/// Reads the answer to a yes or no question.
pub fn parse_answer(words: &AnswerWords, input: &str, default: bool) -> (r: bool)
    ensures
        r == answer_of(*words, input@, default),
{
    let input = to_lowercase(input);
    let w = trim(input.as_str());
    if same(w, words.y.as_str()) || same(w, words.yes.as_str()) {
        true
    } else if w.is_empty() {
        default
    } else {
        false
    }
}

/// The answer to a three way prompt.
#[derive(Debug, Clone, Copy, PartialEq, Eq, Structural)]
pub enum YesNoEdit {
    Yes,
    No,
    /// The user wants to keep talking to the ai.
    Edit,
}

/// The answer that is taken when none is given: yes where it is on offer.
pub open spec fn offered(yes: bool) -> YesNoEdit {
    if yes {
        YesNoEdit::Yes
    } else {
        YesNoEdit::No
    }
}

/// The answer that is taken without asking.
pub fn default_yne(yes: bool) -> (r: YesNoEdit)
    ensures
        r == offered(yes),
{
    if yes {
        YesNoEdit::Yes
    } else {
        YesNoEdit::No
    }
}

/// The answer to a question that can also be answered by continuing the
/// conversation; yes only counts where it is on offer.
pub open spec fn yne_of(words: AnswerWords, input: Seq<char>, yes: bool) -> YesNoEdit {
    let w = lowercased(trimmed(input));
    if w == "e"@ || w == words.e@ {
        YesNoEdit::Edit
    } else if w.len() == 0 || says_yes(words, w) {
        offered(yes)
    } else {
        YesNoEdit::No
    }
}

/// Reads the answer to a question that can also be answered by continuing the
/// conversation.
///
/// `yes` controls whether y is offered at all: when the ai found nothing there
/// is nothing to accept, so the prompt is only n or e.
pub fn parse_yne(words: &AnswerWords, input: &str, yes: bool) -> (r: YesNoEdit)
    ensures
        r == yne_of(*words, input@, yes),
        !yes ==> r != YesNoEdit::Yes,
{
    let input = to_lowercase(trim(input));
    let w = input.as_str();
    if same(w, "e") || same(w, words.e.as_str()) {
        YesNoEdit::Edit
    } else if w.is_empty() || same(w, words.y.as_str()) || same(w, words.yes.as_str()) {
        default_yne(yes)
    } else {
        YesNoEdit::No
    }
}

/// With nothing to accept the answer is only no or edit, whatever is typed and
/// also where nobody is asked.
pub proof fn law_nothing_on_offer_is_never_accepted(words: AnswerWords, input: Seq<char>)
    ensures
        yne_of(words, input, false) != YesNoEdit::Yes,
        offered(false) != YesNoEdit::Yes,
{
}

/// Answering `e`, in either case and with blanks around it, always continues
/// the conversation, whether or not there is something to accept.
pub proof fn law_e_always_continues(words: AnswerWords, input: Seq<char>, yes: bool)
    requires
        lowercased(trimmed(input)) == "e"@,
    ensures
        yne_of(words, input, yes) == YesNoEdit::Edit,
{
}

/// Whether the answer on a tool line lets the tool run: yes, or nothing.
pub open spec fn tool_answer_of(words: AnswerWords, input: Seq<char>) -> bool {
    let w = lowercased(trimmed(input));
    says_yes(words, w) || w.len() == 0
}

/// Reads the answer on a tool line.
pub fn parse_tool_answer(words: &AnswerWords, input: &str) -> (r: bool)
    ensures
        r == tool_answer_of(*words, input@),
{
    let input = to_lowercase(trim(input));
    let w = input.as_str();
    same(w, words.y.as_str()) || same(w, words.yes.as_str()) || w.is_empty()
}

/// The choice among providers that an answer makes.
#[derive(Debug, Clone, Copy, PartialEq, Eq, Structural)]
pub enum Provider {
    /// The provider at this position, counted from zero.
    Chosen(usize),
    /// The answer is not a number.
    NotANumber,
    /// There is no provider with this number.
    OutOfRange(usize),
}

/// The choice among `max` providers that an answer makes; the first if it is
/// blank.
pub open spec fn provider_of(input: Seq<char>, max: usize) -> Provider {
    let w = trimmed(input);
    if w.len() == 0 {
        Provider::Chosen(0)
    } else {
        match number_of(w) {
            None => Provider::NotANumber,
            Some(n) => if 1 <= n <= max {
                Provider::Chosen((n - 1) as usize)
            } else {
                Provider::OutOfRange(n)
            },
        }
    }
}

/// Reads the choice among `max` providers.
pub fn parse_provider(input: &str, max: usize) -> (r: Provider)
    ensures
        r == provider_of(input@, max),
{
    let w = trim(input);
    if w.is_empty() {
        return Provider::Chosen(0);
    }
    match parse_number(w) {
        None => Provider::NotANumber,
        Some(n) => if n < 1 || n > max {
            Provider::OutOfRange(n)
        } else {
            Provider::Chosen(n - 1)
        },
    }
}

/// A provider that was chosen by number is one of those on offer.
pub proof fn law_a_chosen_provider_exists(input: Seq<char>, max: usize)
    requires
        max > 0,
    ensures
        match provider_of(input, max) {
            Provider::Chosen(i) => i < max,
            Provider::OutOfRange(n) => n < 1 || n > max,
            Provider::NotANumber => true,
        },
{
}

/// The options of a three way prompt.
pub fn yne_options(yes: bool) -> (r: &'static str)
    ensures
        r@ == (if yes {
            "[Y/n/e]"@
        } else {
            "[N/e]"@
        }),
{
    if yes {
        "[Y/n/e]"
    } else {
        "[N/e]"
    }
}

/// A question and the answers it offers, as they stand on the terminal.
pub open spec fn question_of(
    action: TextStyle,
    bold: TextStyle,
    question: Seq<char>,
    options: Seq<char>,
) -> Seq<char> {
    painted(action, "::"@) + " "@ + painted(bold, question) + " "@ + painted(bold, options) + " "@
}

/// Writes out a question and the answers it offers.
pub fn question_line(action: TextStyle, bold: TextStyle, question: &str, options: &str) -> (r:
    String)
    ensures
        r@ == question_of(action, bold, question@, options@),
{
    let mut line = paint(action, "::");
    line.append(" ");
    line.append(paint(bold, question).as_str());
    line.append(" ");
    line.append(paint(bold, options).as_str());
    line.append(" ");
    line
}

/// What stands before the answer to a question for free text.
pub fn input_prompt(action: TextStyle) -> (r: String)
    ensures
        r@ == painted(action, "::"@) + " "@,
{
    let mut line = paint(action, "::");
    line.append(" ");
    line
}

/// A yes or no question is answered by yes when the answer is one of the two words
/// for it, in any case and with blanks around it; a blank answer is the default, and
/// every other answer is no.
pub proof fn law_answers_are_read(words: AnswerWords, input: Seq<char>, default: bool)
    ensures
        ({
            let w = trimmed(lowercased(input));
            let r = answer_of(words, input, default);
            &&& w == words.y@ ==> r
            &&& w == words.yes@ ==> r
            &&& w.len() == 0 && words.y@.len() > 0 && words.yes@.len() > 0 ==> r == default
            &&& w.len() > 0 && w != words.y@ && w != words.yes@ ==> !r
        }),
{
}

/// Where there is something to accept, the words for yes and a blank answer accept
/// it; the letter e, also in the user's language, goes on with the conversation, and
/// every other answer is no.
pub proof fn law_three_way_answers_are_read(words: AnswerWords, input: Seq<char>, yes: bool)
    ensures
        ({
            let w = lowercased(trimmed(input));
            let r = yne_of(words, input, yes);
            let edits = w == seq!['e'] || w == words.e@;
            let accepts = w.len() == 0 || w == words.y@ || w == words.yes@;
            &&& edits <==> r == YesNoEdit::Edit
            &&& r == YesNoEdit::Yes <==> yes && accepts && !edits
            &&& offered(yes) == YesNoEdit::Yes <==> yes
            &&& offered(yes) != YesNoEdit::Edit
        }),
{
    reveal_strlit("e");
    assert("e"@ =~= seq!['e']);
}

/// A tool runs when its line is answered by one of the words for yes or by nothing,
/// and by no other answer.
pub proof fn law_tool_answers_are_read(words: AnswerWords, input: Seq<char>)
    ensures
        tool_answer_of(words, input) <==> {
            let w = lowercased(trimmed(input));
            w.len() == 0 || w == words.y@ || w == words.yes@
        },
{
}

/// A provider is chosen by its number, counted from one, whatever blanks are around
/// it; a number that no provider has is refused as such, and a blank answer chooses
/// the first.
pub proof fn law_a_provider_is_chosen_by_its_number(
    before: Seq<char>,
    n: usize,
    behind: Seq<char>,
    max: usize,
)
    requires
        forall|i: int| 0 <= i < before.len() ==> white_space(#[trigger] before[i]),
        forall|i: int| 0 <= i < behind.len() ==> white_space(#[trigger] behind[i]),
    ensures
        1 <= n <= max ==> provider_of(before + decimal(n as nat) + behind, max)
            == Provider::Chosen((n - 1) as usize),
        n == 0 || n > max ==> provider_of(before + decimal(n as nat) + behind, max)
            == Provider::OutOfRange(n),
        provider_of(before, max) == Provider::Chosen(0),
{
    let d = decimal(n as nat);
    law_numbers_read_back(n);
    assert(is_digit(d[0]));
    assert(is_digit(d[d.len() - 1]));
    law_trimming_takes_off_blanks(before, d, behind);
    law_trimming_takes_off_blanks(before, Seq::empty(), Seq::empty());
    assert(before + Seq::<char>::empty() + Seq::<char>::empty() =~= before);
}

/// A question is shown with the answers it offers behind it.
pub proof fn law_a_question_is_shown_with_its_options(
    action: TextStyle,
    bold: TextStyle,
    question: Seq<char>,
    options: Seq<char>,
)
    ensures
        question_of(action, bold, question, options) == painted(action, seq![':', ':']) + seq![' ']
            + painted(bold, question) + seq![' '] + painted(bold, options) + seq![' '],
{
    reveal_strlit("::");
    reveal_strlit(" ");
    assert("::"@ =~= seq![':', ':']);
    assert(" "@ =~= seq![' ']);
}

/// An answer that says something but is no number chooses no provider.
pub proof fn law_words_choose_no_provider(input: Seq<char>, max: usize)
    requires
        trimmed(input).len() > 0,
        number_of(trimmed(input)) is None,
    ensures
        provider_of(input, max) == Provider::NotANumber,
{
}

} // verus!
