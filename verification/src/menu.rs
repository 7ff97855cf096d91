//! The number menu: picking entries of a printed list by number or by name.

use crate::text::{
    all_digits, decimal, find, find_of, head, is_all_digits, is_digit,
    law_an_unbroken_text_is_one_word, law_numbers_read_back, law_only_digits_are_a_number,
    law_words_of_both_sides, lemma_find_from, lemma_first_char, lemma_strs_push, lemma_trim_start,
    number_of, occurs_at, parse_number, pieces, pieces_of, starts_with, starts_with_of, strs,
    strs_have, tail, trim, trim_end_of, trim_start_matches, trim_start_of, trimmed, white_space,
    words, words_of, Class,
};
use std::ops::Range;
use vstd::prelude::*;

verus! {

/// Whether a word takes entries out: it starts with a caret.
pub open spec fn inverted(word: Seq<char>) -> bool {
    word.len() > 0 && word[0] == '^'
}

/// A word without its carets.
pub open spec fn bare(word: Seq<char>) -> Seq<char> {
    trim_start_of(word, Class::Caret)
}

/// What stands before the first `-` of a word.
pub open spec fn name_of(word: Seq<char>) -> Seq<char> {
    pieces_of(bare(word), "-"@)[0]
}

/// The numbers from `start` to `last`. Past the largest number the end wraps
/// around, which leaves none.
pub open spec fn span(start: usize, last: usize) -> Range<usize> {
    Range { start, end: last.wrapping_add(1) }
}

/// The numbers a word stands for, whatever carets are in front of it.
pub open spec fn span_of(word: Seq<char>) -> Option<Range<usize>> {
    span_in(bare(word))
}

/// The numbers a word without carets stands for: one number, or two with a `-`
/// between them, whatever follows behind a further `-`.
pub open spec fn span_in(word: Seq<char>) -> Option<Range<usize>> {
    let parts = pieces_of(word, "-"@);
    match number_of(parts[0]) {
        None => None,
        Some(start) => if parts.len() == 1 {
            Some(span(start, start))
        } else {
            match number_of(parts[1]) {
                Some(last) => Some(span(start, last)),
                None => None,
            }
        },
    }
}

/// The numbers that the words put in, or take out, in order.
pub open spec fn spans(list: Seq<Seq<char>>, invert: bool) -> Seq<Range<usize>>
    decreases list.len(),
{
    if list.len() == 0 {
        Seq::empty()
    } else {
        let rest = spans(list.drop_last(), invert);
        match span_of(list.last()) {
            Some(r) if inverted(list.last()) == invert => rest.push(r),
            _ => rest,
        }
    }
}

/// The names that the words put in, or take out, in order.
pub open spec fn names(list: Seq<Seq<char>>, invert: bool) -> Seq<Seq<char>>
    decreases list.len(),
{
    if list.len() == 0 {
        Seq::empty()
    } else {
        let rest = names(list.drop_last(), invert);
        if span_of(list.last()) is None && inverted(list.last()) == invert {
            rest.push(name_of(list.last()))
        } else {
            rest
        }
    }
}

/// Whether `n` is in one of the ranges.
pub open spec fn in_spans(list: Seq<Range<usize>>, n: usize) -> bool {
    exists|i: int| 0 <= i < list.len() && (#[trigger] list[i]).start <= n < list[i].end
}

/// Whether a typed selection holds the entry with number `n` and name `word`.
pub open spec fn input_picks(input: Seq<char>, n: usize, word: Seq<char>) -> bool {
    let list = words_of(input, Class::Separator);
    ||| in_spans(spans(list, false), n)
    ||| names(list, false).contains(word)
    ||| {
        &&& !in_spans(spans(list, true), n)
        &&& !names(list, true).contains(word)
        &&& spans(list, false).len() == 0
        &&& names(list, false).len() == 0
    }
}

/// A selection typed at the number menu.
#[derive(Debug)]
pub struct NumberMenu<'a> {
    pub in_range: Vec<Range<usize>>,
    pub ex_range: Vec<Range<usize>>,
    pub in_word: Vec<&'a str>,
    pub ex_word: Vec<&'a str>,
}

impl<'a> NumberMenu<'a> {
    /// Whether the selection holds the entry with number `n` and name `word`.
    /// What is put in wins over what is taken out; without anything put in, all
    /// that is not taken out is in.
    pub open spec fn picks(self, n: usize, word: Seq<char>) -> bool {
        ||| in_spans(self.in_range@, n)
        ||| strs(self.in_word@).contains(word)
        ||| {
            &&& !in_spans(self.ex_range@, n)
            &&& !strs(self.ex_word@).contains(word)
            &&& self.in_range@.len() == 0
            &&& self.in_word@.len() == 0
        }
    }

    /// Reads a selection: numbers, ranges and names, separated by white space
    /// or commas, each taken out again with a `^` in front.
    pub fn new(input: &'a str) -> (r: Self)
        ensures
            r.in_range@ == spans(words_of(input@, Class::Separator), false),
            r.ex_range@ == spans(words_of(input@, Class::Separator), true),
            strs(r.in_word@) == names(words_of(input@, Class::Separator), false),
            strs(r.ex_word@) == names(words_of(input@, Class::Separator), true),
            forall|n: usize, word: Seq<char>| #[trigger]
                r.picks(n, word) == input_picks(input@, n, word),
    {
        let list = words(input, Class::Separator);
        let ghost all = strs(list@);
        let mut in_range: Vec<Range<usize>> = Vec::new();
        let mut ex_range: Vec<Range<usize>> = Vec::new();
        let mut in_word: Vec<&'a str> = Vec::new();
        let mut ex_word: Vec<&'a str> = Vec::new();
        let mut i: usize = 0;
        proof {
            assert(all.take(0) =~= Seq::<Seq<char>>::empty());
            assert(strs(in_word@) =~= Seq::<Seq<char>>::empty());
            assert(strs(ex_word@) =~= Seq::<Seq<char>>::empty());
        }
        while i < list.len()
            invariant
                i <= list@.len(),
                all == strs(list@),
                in_range@ == spans(all.take(i as int), false),
                ex_range@ == spans(all.take(i as int), true),
                strs(in_word@) == names(all.take(i as int), false),
                strs(ex_word@) == names(all.take(i as int), true),
            decreases list@.len() - i,
        {
            let word = list[i];
            proof {
                reveal_strlit("^");
                reveal_strlit("-");
                assert(all.take(i + 1).drop_last() =~= all.take(i as int));
                assert(all.take(i + 1).last() == word@);
                assert(starts_with_of(word@, "^"@) == inverted(word@)) by {
                    if inverted(word@) {
                        assert(word@.subrange(0, 1) =~= "^"@);
                    }
                    if occurs_at(word@, "^"@, 0) {
                        assert(word@.subrange(0, 1)[0] == '^');
                    }
                }
            }
            let invert = starts_with(word, "^");
            let word = trim_start_matches(word, Class::Caret);
            let (start_str, range) = read_span(word);
            proof {
                lemma_strs_push(in_word@, start_str);
                lemma_strs_push(ex_word@, start_str);
            }
            match range {
                Some(range) => if invert {
                    ex_range.push(range);
                } else {
                    in_range.push(range);
                },
                None => if invert {
                    ex_word.push(start_str);
                } else {
                    in_word.push(start_str);
                },
            }
            i += 1;
        }
        assert(all.take(i as int) =~= all);
        assert(strs(in_word@).len() == in_word@.len());
        NumberMenu { in_range, ex_range, in_word, ex_word }
    }

    /// Whether the selection holds the entry with number `n` and name `word`.
    pub fn contains(&self, n: usize, word: &str) -> (r: bool)
        ensures
            r == self.picks(n, word@),
    {
        if any_span(&self.in_range, n) || strs_have(self.in_word.as_slice(), word) {
            true
        } else if any_span(&self.ex_range, n) || strs_have(self.ex_word.as_slice(), word) {
            false
        } else {
            self.in_range.len() == 0 && self.in_word.len() == 0
        }
    }
}

/// Reads a word without its carets: what stands before its first `-`, and the
/// numbers it stands for.
fn read_span<'a>(word: &'a str) -> (r: (&'a str, Option<Range<usize>>))
    ensures
        r.0@ == pieces_of(word@, "-"@)[0],
        r.1 == span_in(word@),
{
    proof {
        reveal_strlit("-");
    }
    let parts = pieces(word, "-");
    assert(pieces_of(word@, "-"@).len() > 0);
    assert(strs(parts@)[0] == parts@[0]@);
    let range = match parse_number(parts[0]) {
        Some(start) => if parts.len() == 1 {
            Some(Range { start, end: start.wrapping_add(1) })
        } else {
            assert(strs(parts@)[1] == parts@[1]@);
            match parse_number(parts[1]) {
                Some(last) => Some(Range { start, end: last.wrapping_add(1) }),
                None => None,
            }
        },
        None => None,
    };
    (parts[0], range)
}

fn any_span(list: &Vec<Range<usize>>, n: usize) -> (r: bool)
    ensures
        r == in_spans(list@, n),
{
    let mut i: usize = 0;
    while i < list.len()
        invariant
            i <= list@.len(),
            forall|k: int| 0 <= k < i ==> !((#[trigger] list@[k]).start <= n < list@[k].end),
        decreases list@.len() - i,
    {
        if list[i].start <= n && n < list[i].end {
            assert(list@[i as int].start <= n < list@[i as int].end);
            return true;
        }
        i += 1;
    }
    false
}

/// Whether a word is a number or two numbers with a `-` between them.
pub open spec fn numeric(word: Seq<char>) -> bool {
    match find_of(word, "-"@) {
        Some(i) => {
            let start = word.take(i);
            let end = word.skip(i + 1);
            start.len() > 0 && end.len() > 0 && all_digits(start) && all_digits(end)
        },
        None => all_digits(word),
    }
}

/// Whether a word belongs to a selection: carets alone, or whatever the number
/// menu reads as numbers, or after the carets digits, a range of them or one of
/// the listed words.
pub open spec fn menu_word(word: Seq<char>, listed: Seq<Seq<char>>) -> bool {
    ||| bare(word).len() == 0
    ||| span_of(word) is Some
    ||| numeric(bare(word))
    ||| listed.contains(bare(word))
}

/// Whether an input is a selection rather than natural language.
pub open spec fn menu_input(input: Seq<char>, listed: Seq<Seq<char>>) -> bool {
    let list = words_of(trimmed(input), Class::Separator);
    trimmed(input).len() == 0 || {
        &&& list.len() > 0
        &&& forall|i: int| 0 <= i < list.len() ==> menu_word(#[trigger] list[i], listed)
    }
}

fn is_numeric(word: &str) -> (r: bool)
    ensures
        r == numeric(word@),
{
    proof {
        reveal_strlit("-");
    }
    match find(word, "-") {
        Some(i) => {
            let start = head(word, i);
            let end = tail(word, i + 1);
            !start.is_empty() && !end.is_empty() && is_all_digits(start) && is_all_digits(end)
        },
        None => is_all_digits(word),
    }
}

/// Whether an input should be handled by [`NumberMenu`] rather than treated as
/// natural language.
///
/// Deliberately conservative: anything the number menu understands today must
/// still be answered yes here so enabling the ai layer never changes how an
/// existing selection is parsed. A word only counts as natural language when it
/// is neither a number range nor the name of something in the list.
pub fn is_number_menu(input: &str, listed: &[&str]) -> (r: bool)
    ensures
        r == menu_input(input@, strs(listed@)),
{
    let text = trim(input);
    if text.is_empty() {
        return true;
    }
    let list = words(text, Class::Separator);
    let ghost all = strs(list@);
    let mut i: usize = 0;
    while i < list.len()
        invariant
            i <= list@.len(),
            all == strs(list@),
            all == words_of(trimmed(input@), Class::Separator),
            trimmed(input@).len() > 0,
            forall|k: int| 0 <= k < i ==> menu_word(#[trigger] all[k], strs(listed@)),
        decreases list@.len() - i,
    {
        assert(all[i as int] == list@[i as int]@);
        let word = trim_start_matches(list[i], Class::Caret);
        let (_, range) = read_span(word);
        if !word.is_empty() && range.is_none() && !is_numeric(word) && !strs_have(listed, word) {
            assert(!menu_word(all[i as int], strs(listed@)));
            return false;
        }
        i += 1;
    }
    list.len() > 0
}

/// What counts in a list of words is which they are.
pub proof fn lemma_menu_input_by_membership(
    input: Seq<char>,
    a: Seq<Seq<char>>,
    b: Seq<Seq<char>>,
)
    requires
        forall|w: Seq<char>| #[trigger] a.contains(w) <==> b.contains(w),
    ensures
        menu_input(input, a) == menu_input(input, b),
{
    let list = words_of(trimmed(input), Class::Separator);
    assert forall|i: int| 0 <= i < list.len() implies menu_word(#[trigger] list[i], a)
        == menu_word(list[i], b) by {
        assert(a.contains(bare(list[i])) <==> b.contains(bare(list[i])));
    }
    if menu_input(input, a) && trimmed(input).len() > 0 {
        assert forall|i: int| 0 <= i < list.len() implies menu_word(#[trigger] list[i], b) by {
            assert(menu_word(list[i], a));
        }
    }
    if menu_input(input, b) && trimmed(input).len() > 0 {
        assert forall|i: int| 0 <= i < list.len() implies menu_word(#[trigger] list[i], a) by {
            assert(menu_word(list[i], b));
        }
    }
}

/// A separator in front adds no word.
proof fn lemma_words_after_blank(s: Seq<char>)
    ensures
        words_of(trim_start_of(s, Class::White), Class::Separator) == words_of(
            s,
            Class::Separator,
        ),
    decreases s.len(),
{
    if s.len() > 0 && white_space(s[0]) {
        let t = s.skip(1);
        lemma_words_after_blank(t);
        lemma_trim_start(s, Class::Separator);
        lemma_trim_start(t, Class::Separator);
        assert(trim_start_of(s, Class::Separator) == trim_start_of(t, Class::Separator));
        assert(words_of(s, Class::Separator) == words_of(t, Class::Separator));
    }
}

/// The words on both sides of a separator are the words of the whole.
proof fn lemma_words_around_separator(a: Seq<char>, c: char, b: Seq<char>)
    requires
        Class::Separator.has(c),
    ensures
        words_of(a.push(c) + b, Class::Separator) == words_of(a, Class::Separator) + words_of(
            b,
            Class::Separator,
        ),
{
    law_words_of_both_sides(a, c, b, Class::Separator);
}

proof fn lemma_words_before_blank(s: Seq<char>)
    ensures
        words_of(trim_end_of(s, Class::White), Class::Separator) == words_of(s, Class::Separator),
    decreases s.len(),
{
    if s.len() > 0 && white_space(s.last()) {
        lemma_words_before_blank(s.drop_last());
        let none = Seq::<char>::empty();
        lemma_words_around_separator(s.drop_last(), s.last(), none);
        assert(s.drop_last().push(s.last()) + none =~= s);
        assert(words_of(none, Class::Separator).len() == 0);
    }
}

/// Blanks around an input change nothing in what the number menu reads.
pub proof fn law_blanks_around_a_selection_do_not_matter(input: Seq<char>)
    ensures
        words_of(trimmed(input), Class::Separator) == words_of(input, Class::Separator),
{
    lemma_words_after_blank(input);
    lemma_words_before_blank(trim_start_of(input, Class::White));
}

/// What two lists of words put in or take out comes in the order of the lists.
proof fn lemma_fields_of_both(a: Seq<Seq<char>>, b: Seq<Seq<char>>, invert: bool)
    ensures
        spans(a + b, invert) == spans(a, invert) + spans(b, invert),
        names(a + b, invert) == names(a, invert) + names(b, invert),
    decreases b.len(),
{
    if b.len() == 0 {
        assert(a + b =~= a);
    } else {
        assert((a + b).drop_last() =~= a + b.drop_last());
        assert((a + b).last() == b.last());
        lemma_fields_of_both(a, b.drop_last(), invert);
    }
}

/// Two selections with a separator between them hold what both hold: the numbers
/// and the names that the first puts in and takes out, and then those of the
/// second.
pub proof fn law_a_separator_joins_selections(a: Seq<char>, c: char, b: Seq<char>)
    requires
        white_space(c) || c == ',',
    ensures
        ({
            let first = words_of(a, Class::Separator);
            let second = words_of(b, Class::Separator);
            let both = words_of(a.push(c) + b, Class::Separator);
            &&& spans(both, false) == spans(first, false) + spans(second, false)
            &&& spans(both, true) == spans(first, true) + spans(second, true)
            &&& names(both, false) == names(first, false) + names(second, false)
            &&& names(both, true) == names(first, true) + names(second, true)
        }),
{
    lemma_words_around_separator(a, c, b);
    let first = words_of(a, Class::Separator);
    let second = words_of(b, Class::Separator);
    lemma_fields_of_both(first, second, false);
    lemma_fields_of_both(first, second, true);
}

/// Whether a word stands for the entry with number `n` and name `name`, to put it
/// in or to take it out.
pub open spec fn stands_for(word: Seq<char>, n: usize, name: Seq<char>) -> bool {
    match span_of(word) {
        Some(r) => r.start <= n < r.end,
        None => name_of(word) == name,
    }
}

proof fn lemma_fields_by_word(list: Seq<Seq<char>>, invert: bool, n: usize, name: Seq<char>)
    ensures
        (in_spans(spans(list, invert), n) || names(list, invert).contains(name)) <==> exists|k: int|
            0 <= k < list.len() && inverted(#[trigger] list[k]) == invert && stands_for(
                list[k],
                n,
                name,
            ),
        spans(list, invert).len() + names(list, invert).len() > 0 <==> exists|k: int|
            0 <= k < list.len() && inverted(#[trigger] list[k]) == invert,
    decreases list.len(),
{
    if list.len() > 0 {
        let rest = list.drop_last();
        let last = list.last();
        lemma_fields_by_word(rest, invert, n, name);
        let s = spans(list, invert);
        let t = spans(rest, invert);
        let w = names(list, invert);
        let v = names(rest, invert);
        if exists|k: int| 0 <= k < rest.len() && inverted(#[trigger] rest[k]) == invert {
            let k = choose|k: int| 0 <= k < rest.len() && inverted(#[trigger] rest[k]) == invert;
            assert(list[k] == rest[k]);
        }
        if in_spans(t, n) {
            let i = choose|i: int| 0 <= i < t.len() && (#[trigger] t[i]).start <= n < t[i].end;
            assert(s[i] == t[i]);
        }
        if v.contains(name) {
            let i = choose|i: int| 0 <= i < v.len() && v[i] == name;
            assert(w[i] == name);
        }
        if exists|k: int|
            0 <= k < rest.len() && inverted(#[trigger] rest[k]) == invert && stands_for(
                rest[k],
                n,
                name,
            ) {
            let k = choose|k: int|
                0 <= k < rest.len() && inverted(#[trigger] rest[k]) == invert && stands_for(
                    rest[k],
                    n,
                    name,
                );
            assert(list[k] == rest[k]);
        }
        let here = list.len() - 1;
        if inverted(last) == invert && stands_for(last, n, name) {
            assert(list[here] == last);
            if span_of(last) is Some {
                assert(s[t.len() as int] == span_of(last)->0);
            } else {
                assert(w[v.len() as int] == name);
            }
        }
        if in_spans(s, n) {
            let i = choose|i: int| 0 <= i < s.len() && (#[trigger] s[i]).start <= n < s[i].end;
            if i < t.len() {
                assert(t[i] == s[i]);
            } else {
                assert(stands_for(list[here], n, name));
            }
        }
        if w.contains(name) {
            let i = choose|i: int| 0 <= i < w.len() && w[i] == name;
            if i < v.len() {
                assert(v[i] == name);
            } else {
                assert(stands_for(list[here], n, name));
            }
        }
        assert forall|k: int|
            0 <= k < list.len() && inverted(#[trigger] list[k]) == invert && stands_for(
                list[k],
                n,
                name,
            ) implies in_spans(s, n) || w.contains(name) by {
            if k < rest.len() {
                assert(rest[k] == list[k]);
            }
        }
        assert forall|k: int| 0 <= k < list.len() && inverted(#[trigger] list[k]) == invert implies
            s.len() + w.len() > 0 by {
            if k < rest.len() {
                assert(rest[k] == list[k]);
            }
        }
        if s.len() + w.len() > 0 && t.len() + v.len() == 0 {
            assert(inverted(list[here]) == invert);
        }
    }
}

/// A selection is decided word by word, wherever a word stands: an entry is in when
/// a word puts it in; and where no word puts anything in, when no word takes it
/// out.
pub proof fn law_every_word_of_a_selection_counts(input: Seq<char>, n: usize, name: Seq<char>)
    ensures
        ({
            let list = words_of(input, Class::Separator);
            input_picks(input, n, name) <==> {
                ||| exists|k: int|
                    0 <= k < list.len() && !inverted(#[trigger] list[k]) && stands_for(
                        list[k],
                        n,
                        name,
                    )
                ||| forall|k: int|
                    0 <= k < list.len() ==> inverted(#[trigger] list[k]) && !stands_for(
                        list[k],
                        n,
                        name,
                    )
            }
        }),
{
    let list = words_of(input, Class::Separator);
    lemma_fields_by_word(list, false, n, name);
    lemma_fields_by_word(list, true, n, name);
}

/// Whether a selection puts anything in.
pub open spec fn puts_in(input: Seq<char>) -> bool {
    let list = words_of(input, Class::Separator);
    exists|k: int| 0 <= k < list.len() && !inverted(#[trigger] list[k])
}

/// Two selections with a separator between them pick what either picks if both
/// put something in, and what both pick if neither does. If only one of them
/// does, the whole picks what that one picks.
pub proof fn law_a_joined_selection_picks_for_both(
    a: Seq<char>,
    c: char,
    b: Seq<char>,
    n: usize,
    name: Seq<char>,
)
    requires
        white_space(c) || c == ',',
    ensures
        ({
            let both = input_picks(a.push(c) + b, n, name);
            let first = input_picks(a, n, name);
            let second = input_picks(b, n, name);
            &&& puts_in(a) && puts_in(b) ==> both == (first || second)
            &&& puts_in(a) && !puts_in(b) ==> both == first
            &&& !puts_in(a) && puts_in(b) ==> both == second
            &&& !puts_in(a) && !puts_in(b) ==> both == (first && second)
        }),
{
    law_every_word_of_a_selection_counts(a, n, name);
    law_every_word_of_a_selection_counts(b, n, name);
    law_every_word_of_a_selection_counts(a.push(c) + b, n, name);
    lemma_words_around_separator(a, c, b);
    let x = words_of(a, Class::Separator);
    let y = words_of(b, Class::Separator);
    let all = words_of(a.push(c) + b, Class::Separator);
    assert(all == x + y);
    assert forall|k: int| 0 <= k < x.len() implies all[k] == #[trigger] x[k] by {
    }
    assert forall|k: int| 0 <= k < y.len() implies all[x.len() + k] == #[trigger] y[k] by {
    }
    assert forall|k: int| 0 <= k < all.len() implies #[trigger] all[k] == (if k < x.len() {
        x[k]
    } else {
        y[k - x.len()]
    }) by {
    }
}

/// A word without a dash is one piece.
proof fn lemma_undashed(word: Seq<char>)
    requires
        !word.contains('-'),
    ensures
        pieces_of(word, "-"@) == seq![word],
{
    reveal_strlit("-");
    assert("-"@ =~= seq!['-']);
    lemma_find_from(word, "-"@, 0);
    if let Some(k) = find_of(word, "-"@) {
        assert(word.subrange(k, k + 1)[0] == word[k]);
        assert(word.contains(word[k]));
    }
}

proof fn lemma_decimal_word(n: usize)
    ensures
        number_of(decimal(n as nat)) == Some(n),
        decimal(n as nat).len() > 0,
        !decimal(n as nat).contains('-'),
        decimal(n as nat)[0] != '^',
        forall|k: int|
            0 <= k < decimal(n as nat).len() ==> !Class::Separator.has(
                #[trigger] decimal(n as nat)[k],
            ),
{
    let d = decimal(n as nat);
    law_numbers_read_back(n);
    assert forall|k: int| 0 <= k < d.len() implies !Class::Separator.has(#[trigger] d[k]) && d[k]
        != '-' && d[k] != '^' by {
        assert(is_digit(d[k]));
    }
    assert(d[0] != '^');
}

/// A number stands for the entry with that number and for no other, and two
/// numbers with a dash between them for those from the first to the second, both
/// of them among these. (Behind the largest number there is none to end at.)
pub proof fn law_numbers_and_ranges_are_read(a: usize, b: usize, n: usize, name: Seq<char>)
    requires
        a < usize::MAX,
        b < usize::MAX,
    ensures
        stands_for(decimal(a as nat), n, name) == (n == a),
        stands_for(decimal(a as nat) + seq!['-'] + decimal(b as nat), n, name) == (a <= n <= b),
        !inverted(decimal(a as nat)),
        !inverted(decimal(a as nat) + seq!['-'] + decimal(b as nat)),
{
    let x = decimal(a as nat);
    let y = decimal(b as nat);
    lemma_decimal_word(a);
    lemma_decimal_word(b);
    lemma_undashed(x);
    lemma_undashed(y);
    let w = x + seq!['-'] + y;
    reveal_strlit("-");
    assert("-"@ =~= seq!['-']);
    let i = x.len() as int;
    assert(w[i] == '-');
    assert forall|m: int| 0 <= m < i implies #[trigger] w[m] != '-' by {
        assert(x.contains(x[m]));
    }
    lemma_first_char(w, '-', i);
    assert(w.take(i) =~= x);
    assert(w.skip(i + 1) =~= y);
    assert(pieces_of(w, "-"@) == seq![x] + seq![y]);
    assert(w[0] == x[0]);
    assert(bare(x) == x);
    assert(bare(w) == w);
}

/// A caret in front of a word takes out what the word stands for.
pub proof fn law_a_caret_takes_out(word: Seq<char>, n: usize, name: Seq<char>)
    ensures
        inverted(seq!['^'] + word),
        stands_for(seq!['^'] + word, n, name) == stands_for(word, n, name),
{
    let w = seq!['^'] + word;
    assert(w.skip(1) =~= word);
    assert(bare(w) == bare(word));
}

/// Any other word is a name: one that holds no dash and does not start with a
/// caret stands for the entries of that name alone, unless it reads as a number.
pub proof fn law_other_words_are_names(word: Seq<char>, n: usize, name: Seq<char>)
    requires
        word.len() > 0,
        word[0] != '^',
        !word.contains('-'),
        !('0' <= word.last() <= '9'),
    ensures
        !inverted(word),
        stands_for(word, n, name) == (name == word),
{
    lemma_undashed(word);
    law_only_digits_are_a_number(word);
    assert(bare(word) == word);
}

/// A number that is typed is picked, whatever stands before and behind it in the
/// selection: each of `1 2 3` counts, and so does each of any longer list.
pub proof fn law_a_typed_number_is_picked(
    before: Seq<char>,
    c: char,
    n: usize,
    d: char,
    behind: Seq<char>,
    name: Seq<char>,
)
    requires
        white_space(c) || c == ',',
        white_space(d) || d == ',',
        n < usize::MAX,
    ensures
        input_picks(before.push(c) + (decimal(n as nat).push(d) + behind), n, name),
        input_picks(decimal(n as nat), n, name),
        forall|m: usize| m != n ==> !#[trigger] input_picks(decimal(n as nat), m, name),
{
    let x = decimal(n as nat);
    let rest = x.push(d) + behind;
    let input = before.push(c) + rest;
    let sep = Class::Separator;
    lemma_decimal_word(n);
    law_an_unbroken_text_is_one_word(x, sep);
    law_words_of_both_sides(x, d, behind, sep);
    law_words_of_both_sides(before, c, rest, sep);
    let list = words_of(input, sep);
    let k = words_of(before, sep).len() as int;
    assert(list[k] == x);
    law_numbers_and_ranges_are_read(n, n, n, name);
    law_every_word_of_a_selection_counts(input, n, name);
    law_every_word_of_a_selection_counts(x, n, name);
    assert(words_of(x, sep)[0] == x);
    assert forall|m: usize| m != n implies !#[trigger] input_picks(x, m, name) by {
        law_numbers_and_ranges_are_read(n, n, m, name);
        law_every_word_of_a_selection_counts(x, m, name);
    }
}

/// What the number menu understands stays a selection: an input whose every
/// word it reads as numbers, or that is on the list, is never taken for natural
/// language.
pub proof fn law_selections_are_not_natural_language(input: Seq<char>, listed: Seq<Seq<char>>)
    requires
        words_of(input, Class::Separator).len() > 0,
        forall|i: int|
            0 <= i < words_of(input, Class::Separator).len() ==> span_of(
                #[trigger] words_of(input, Class::Separator)[i],
            ) is Some || listed.contains(bare(words_of(input, Class::Separator)[i])),
    ensures
        menu_input(input, listed),
{
    law_blanks_around_a_selection_do_not_matter(input);
    let list = words_of(input, Class::Separator);
    assert forall|i: int| 0 <= i < list.len() implies menu_word(#[trigger] list[i], listed) by {
    }
}

/// One word is enough to make an input natural language, wherever it stands: a
/// word that holds no dash, does not end in a digit, and is not on the list.
pub proof fn law_an_unlisted_word_is_natural_language(
    before: Seq<char>,
    c: char,
    word: Seq<char>,
    d: char,
    behind: Seq<char>,
    listed: Seq<Seq<char>>,
)
    requires
        white_space(c) || c == ',',
        white_space(d) || d == ',',
        word.len() > 0,
        forall|k: int|
            0 <= k < word.len() ==> !white_space(#[trigger] word[k]) && word[k] != ','
                && word[k] != '-',
        word[0] != '^',
        !('0' <= word.last() <= '9'),
        !listed.contains(word),
    ensures
        !menu_input(before.push(c) + (word.push(d) + behind), listed),
        !menu_input(word, listed),
{
    let sep = Class::Separator;
    let rest = word.push(d) + behind;
    let input = before.push(c) + rest;
    assert forall|k: int| 0 <= k < word.len() implies !sep.has(#[trigger] word[k]) by {
    }
    law_an_unbroken_text_is_one_word(word, sep);
    law_words_of_both_sides(word, d, behind, sep);
    law_words_of_both_sides(before, c, rest, sep);
    law_blanks_around_a_selection_do_not_matter(input);
    law_blanks_around_a_selection_do_not_matter(word);
    let list = words_of(input, sep);
    let k = words_of(before, sep).len() as int;
    assert(list[k] == word);
    assert(words_of(word, sep)[0] == word);
    assert(!word.contains('-'));
    lemma_undashed(word);
    law_only_digits_are_a_number(word);
    reveal_strlit("-");
    assert("-"@ =~= seq!['-']);
    lemma_find_from(word, "-"@, 0);
    if let Some(i) = find_of(word, "-"@) {
        assert(word.subrange(i, i + 1)[0] == word[i]);
    }
    assert(!is_digit(word[word.len() - 1]));
    assert(bare(word) == word);
    assert(!menu_word(word, listed));
    if trimmed(input).len() == 0 {
        assert(words_of(trimmed(input), sep).len() == 0);
    }
    if trimmed(word).len() == 0 {
        assert(words_of(trimmed(word), sep).len() == 0);
    }
}

/// Where no word is a name, every word is a number or a range.
proof fn lemma_all_spans(list: Seq<Seq<char>>, i: int)
    requires
        names(list, false).len() == 0,
        names(list, true).len() == 0,
        0 <= i < list.len(),
    ensures
        span_of(list[i]) is Some,
    decreases list.len(),
{
    if span_of(list.last()) is None {
        assert(names(list, inverted(list.last())).len() > 0);
    }
    if i < list.len() - 1 {
        lemma_all_spans(list.drop_last(), i);
    }
}

/// An input that the number menu reads as numbers throughout, with no name left
/// over, is a selection, whatever is on the list.
pub proof fn law_numbers_are_a_selection(input: Seq<char>, listed: Seq<Seq<char>>)
    requires
        names(words_of(input, Class::Separator), false).len() == 0,
        names(words_of(input, Class::Separator), true).len() == 0,
        spans(words_of(input, Class::Separator), false).len() + spans(
            words_of(input, Class::Separator),
            true,
        ).len() > 0,
    ensures
        menu_input(input, listed),
{
    let list = words_of(input, Class::Separator);
    assert forall|i: int| 0 <= i < list.len() implies span_of(#[trigger] list[i]) is Some by {
        lemma_all_spans(list, i);
    }
    law_selections_are_not_natural_language(input, listed);
}

/// A blank input is a selection: of nothing.
pub proof fn law_a_blank_input_is_a_selection(input: Seq<char>, listed: Seq<Seq<char>>)
    requires
        trimmed(input).len() == 0,
    ensures
        menu_input(input, listed),
        spans(words_of(input, Class::Separator), false).len() == 0,
        spans(words_of(input, Class::Separator), true).len() == 0,
{
    law_blanks_around_a_selection_do_not_matter(input);
}

/// A dash parts a word: where both sides are numbers it is a range, whatever follows
/// behind a further dash, and where one of them is none the word is the name in front
/// of its first dash.
pub proof fn law_a_dash_parts_a_word(
    a: Seq<char>,
    b: Seq<char>,
    more: Seq<char>,
    n: usize,
    name: Seq<char>,
)
    requires
        a.len() > 0,
        a[0] != '^',
        !a.contains('-'),
        !b.contains('-'),
    ensures
        number_of(a) is None || number_of(b) is None ==> stands_for(
            a + seq!['-'] + b,
            n,
            name,
        ) == (name == a),
        number_of(a) is Some && number_of(b) is Some && number_of(b)->0 < usize::MAX ==> stands_for(
            a + seq!['-'] + b,
            n,
            name,
        ) == (number_of(a)->0 <= n <= number_of(b)->0),
        stands_for(a + seq!['-'] + (b + seq!['-'] + more), n, name) == stands_for(
            a + seq!['-'] + b,
            n,
            name,
        ),
{
    reveal_strlit("-");
    assert("-"@ =~= seq!['-']);
    lemma_undashed(b);
    lemma_first_dash(a, b);
    lemma_first_dash(b, more);
    lemma_first_dash(a, b + seq!['-'] + more);
    let short = a + seq!['-'] + b;
    let long = a + seq!['-'] + (b + seq!['-'] + more);
    assert(short[0] == a[0]);
    assert(long[0] == a[0]);
    assert(bare(short) == short);
    assert(bare(long) == long);
    assert(pieces_of(short, "-"@)[0] == a);
    assert(pieces_of(short, "-"@)[1] == b);
    assert(pieces_of(long, "-"@)[0] == a);
    assert(pieces_of(long, "-"@)[1] == b);
}

/// The pieces around the first dash.
proof fn lemma_first_dash(a: Seq<char>, rest: Seq<char>)
    requires
        !a.contains('-'),
    ensures
        pieces_of(a + seq!['-'] + rest, "-"@) == seq![a] + pieces_of(rest, "-"@),
        pieces_of(rest, "-"@).len() > 0,
{
    reveal_strlit("-");
    assert("-"@ =~= seq!['-']);
    let s = a + seq!['-'] + rest;
    let i = a.len() as int;
    assert forall|m: int| 0 <= m < i implies #[trigger] s[m] != '-' by {
        assert(a.contains(a[m]));
    }
    lemma_first_char(s, '-', i);
    assert(s.take(i) =~= a);
    assert(s.skip(i + 1) =~= rest);
}

/// Digits, and digits on both sides of a dash, belong to a selection whatever is on
/// the list, and however large the numbers are; so do carets in front of them, and
/// the words of the list.
pub proof fn law_digits_belong_to_a_selection(
    a: Seq<char>,
    b: Seq<char>,
    word: Seq<char>,
    listed: Seq<Seq<char>>,
)
    requires
        a.len() > 0,
        b.len() > 0,
        forall|i: int| 0 <= i < a.len() ==> '0' <= #[trigger] a[i] <= '9',
        forall|i: int| 0 <= i < b.len() ==> '0' <= #[trigger] b[i] <= '9',
    ensures
        menu_word(a, listed),
        menu_word(a + seq!['-'] + b, listed),
        menu_word(word, listed) ==> menu_word(seq!['^'] + word, listed),
        listed.contains(word) && word.len() > 0 && word[0] != '^' ==> menu_word(word, listed),
{
    reveal_strlit("-");
    assert("-"@ =~= seq!['-']);
    let w = a + seq!['-'] + b;
    let i = a.len() as int;
    assert forall|m: int| 0 <= m < i implies #[trigger] w[m] != '-' by {
        assert(w[m] == a[m]);
    }
    lemma_first_char(w, '-', i);
    assert(w.take(i) =~= a);
    assert(w.skip(i + 1) =~= b);
    assert(all_digits(a)) by {
        assert forall|m: int| 0 <= m < a.len() implies is_digit(#[trigger] a[m]) by {
        }
    }
    assert(all_digits(b)) by {
        assert forall|m: int| 0 <= m < b.len() implies is_digit(#[trigger] b[m]) by {
        }
    }
    lemma_find_from(a, "-"@, 0);
    if let Some(k) = find_of(a, "-"@) {
        assert(a.subrange(k, k + 1)[0] == a[k]);
    }
    assert('0' <= a[0] <= '9');
    assert(w[0] == a[0]);
    assert(bare(a) == a);
    assert(bare(w) == w);
    assert((seq!['^'] + word).skip(1) =~= word);
    assert(bare(seq!['^'] + word) == bare(word));
}

} // verus!
