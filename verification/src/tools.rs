//! The tools the ai may call: when they are confirmed, how they are announced,
//! how they are described to the model and what they answer.

use crate::json::{
    array, json_views, law_a_member_is_found_by_its_key, members, object, render, rendered, text,
    Json, JsonView,
};
use crate::style::{paint, painted, TextStyle};
use crate::text::same;
use vstd::prelude::*;

verus! {

/// How strictly tool calls are confirmed before they run.
#[derive(Debug, Clone, Copy, PartialEq, Eq, Structural)]
pub enum ToolMode {
    /// Run every tool without asking.
    Auto,
    /// Ask before `web_fetch` only; search tools run freely.
    FetchConfirm,
    /// Ask before every tool call.
    AllConfirm,
}

impl Default for ToolMode {
    fn default() -> (r: Self)
        ensures
            r == ToolMode::FetchConfirm,
    {
        ToolMode::FetchConfirm
    }
}

/// The mode that comes after a mode when the user cycles through them.
pub open spec fn next_mode(mode: ToolMode) -> ToolMode {
    match mode {
        ToolMode::Auto => ToolMode::FetchConfirm,
        ToolMode::FetchConfirm => ToolMode::AllConfirm,
        ToolMode::AllConfirm => ToolMode::Auto,
    }
}

impl ToolMode {
    /// The name of the mode.
    pub fn label(self) -> (r: &'static str)
        ensures
            r@ == (match self {
                ToolMode::Auto => "auto"@,
                ToolMode::FetchConfirm => "fetch-confirm"@,
                ToolMode::AllConfirm => "all-confirm"@,
            }),
    {
        match self {
            ToolMode::Auto => "auto",
            ToolMode::FetchConfirm => "fetch-confirm",
            ToolMode::AllConfirm => "all-confirm",
        }
    }

    /// Goes on to the next mode.
    pub fn cycle(&mut self)
        ensures
            *final(self) == next_mode(*old(self)),
    {
        *self = match *self {
            ToolMode::Auto => ToolMode::FetchConfirm,
            ToolMode::FetchConfirm => ToolMode::AllConfirm,
            ToolMode::AllConfirm => ToolMode::Auto,
        };
    }
}

/// Cycling passes through every mode and comes back.
pub proof fn law_modes_come_round(mode: ToolMode, other: ToolMode)
    ensures
        next_mode(next_mode(next_mode(mode))) == mode,
        other == mode || other == next_mode(mode) || other == next_mode(next_mode(mode)),
{
}

/// A key as the prompts tell them apart.
#[derive(Debug, Clone, Copy, PartialEq, Eq, Structural)]
pub enum Key {
    Tab,
    Esc,
    Enter,
    Char(char),
    Other,
}

/// The key that was pressed; a terminal may report Tab as Ctrl-I.
pub fn pressed_key(key: Key, control: bool) -> (r: Key)
    ensures
        r == (if key == Key::Char('i') && control {
            Key::Tab
        } else {
            key
        }),
{
    match key {
        Key::Char('i') if control => Key::Tab,
        _ => key,
    }
}

/// Whether a key asks to interrupt.
pub fn interrupts(key: Option<Key>) -> (r: bool)
    ensures
        r == (key == Some(Key::Esc)),
{
    matches!(key, Some(Key::Esc))
}

/// The answer a single key gives to a yes or no question, if it gives one.
pub open spec fn key_answer(key: Key) -> Option<bool> {
    match key {
        Key::Char('y') | Key::Char('Y') | Key::Enter => Some(true),
        Key::Char('n') | Key::Char('N') | Key::Esc => Some(false),
        _ => None,
    }
}

/// Reads a single key as the answer to a yes or no question.
pub fn yes_no_key(key: Key) -> (r: Option<bool>)
    ensures
        r == key_answer(key),
{
    match key {
        Key::Char('y') | Key::Char('Y') | Key::Enter => Some(true),
        Key::Char('n') | Key::Char('N') | Key::Esc => Some(false),
        _ => None,
    }
}

/// Where the call of a tool stands.
#[derive(Debug, Clone, Copy, PartialEq, Eq, Structural)]
pub enum Stage {
    /// The user is asked whether the tool may run.
    Confirming,
    /// The user declined and is asked whether to run tools automatically from
    /// now on.
    Switching,
    /// The tool runs.
    Running,
    /// The tool does not run.
    Declined,
    /// The tool has run.
    Finished,
}

/// What a prompt for the mode leads to.
#[derive(Debug, Clone, Copy, PartialEq, Eq, Structural)]
pub enum Choice {
    /// Show the mode and wait for a key.
    Ask,
    /// Go on in this mode.
    Chosen(ToolMode),
    /// The user interrupted.
    Interrupted,
}

/// Decides over the tools the ai may call, prompting the user when the mode
/// asks.
#[derive(Debug)]
pub struct ToolExecutor {
    pub no_confirm: bool,
    pub mode: ToolMode,
}

impl ToolExecutor {
    /// Whether the user has to confirm a tool.
    pub open spec fn confirms(self, name: Seq<char>) -> bool {
        !self.no_confirm && match self.mode {
            ToolMode::Auto => false,
            ToolMode::FetchConfirm => name == "web_fetch"@,
            ToolMode::AllConfirm => true,
        }
    }

    /// Where the call of a tool starts.
    pub open spec fn starts(self, name: Seq<char>) -> Stage {
        if self.confirms(name) {
            Stage::Confirming
        } else {
            Stage::Running
        }
    }

    /// Where an answer leads.
    pub open spec fn answered(self, stage: Stage, yes: bool) -> Stage {
        match stage {
            Stage::Confirming => if yes {
                Stage::Running
            } else if self.mode == ToolMode::AllConfirm {
                Stage::Switching
            } else {
                Stage::Declined
            },
            Stage::Switching => if yes {
                Stage::Running
            } else {
                Stage::Declined
            },
            _ => stage,
        }
    }

    /// What the prompt for the mode starts with.
    pub open spec fn mode_choice(self, shown_before: bool) -> Choice {
        if self.no_confirm || shown_before {
            Choice::Chosen(self.mode)
        } else {
            Choice::Ask
        }
    }

    /// What a key at the prompt for the mode leads to.
    pub open spec fn keyed(self, key: Option<Key>) -> (ToolExecutor, Choice) {
        match key {
            Some(Key::Tab) => (
                ToolExecutor { mode: next_mode(self.mode), ..self },
                Choice::Ask,
            ),
            Some(Key::Esc) => (self, Choice::Interrupted),
            _ => (self, Choice::Chosen(self.mode)),
        }
    }

    /// Starts in the default mode.
    pub fn new(no_confirm: bool) -> (r: Self)
        ensures
            r.no_confirm == no_confirm,
            r.mode == (if no_confirm {
                ToolMode::Auto
            } else {
                ToolMode::FetchConfirm
            }),
    {
        let mut mode = ToolMode::default();
        if no_confirm {
            // Non interactive runs have nobody to answer the prompt.
            mode = ToolMode::Auto;
        }
        ToolExecutor { no_confirm, mode }
    }

    /// Whether the user has to confirm a tool.
    pub fn needs_confirm(&self, name: &str) -> (r: bool)
        ensures
            r == self.confirms(name@),
    {
        if self.no_confirm {
            return false;
        }
        match self.mode {
            ToolMode::Auto => false,
            ToolMode::FetchConfirm => same(name, "web_fetch"),
            ToolMode::AllConfirm => true,
        }
    }

    /// Starts the call of a tool: it runs at once, or is confirmed first.
    pub fn start(&self, name: &str) -> (r: Stage)
        ensures
            r == self.starts(name@),
    {
        if self.needs_confirm(name) {
            Stage::Confirming
        } else {
            Stage::Running
        }
    }

    /// Takes the answer to the question a stage asks. Whoever declines while
    /// every tool is confirmed is asked whether to switch to running them all,
    /// so as not to be stuck answering every call.
    pub fn answer(&mut self, stage: Stage, yes: bool) -> (r: Stage)
        ensures
            r == old(self).answered(stage, yes),
            *final(self) == (ToolExecutor {
                mode: if stage == Stage::Switching && yes {
                    ToolMode::Auto
                } else {
                    old(self).mode
                },
                ..*old(self)
            }),
    {
        match stage {
            Stage::Confirming => if yes {
                Stage::Running
            } else if self.mode == ToolMode::AllConfirm {
                Stage::Switching
            } else {
                Stage::Declined
            },
            Stage::Switching => if yes {
                self.mode = ToolMode::Auto;
                Stage::Running
            } else {
                Stage::Declined
            },
            _ => stage,
        }
    }

    /// Whether to prompt for the mode. Only the first tool session shows the
    /// prompt, and none does when confirmation is off.
    pub fn choose_mode(&self, shown_before: bool) -> (r: Choice)
        ensures
            r == self.mode_choice(shown_before),
    {
        if self.no_confirm || shown_before {
            return Choice::Chosen(self.mode);
        }
        Choice::Ask
    }

    /// Takes a key at the prompt for the mode: Tab goes on to the next mode, Esc
    /// interrupts, and anything else, a key or none in time, ends the prompt.
    pub fn choose_key(&mut self, key: Option<Key>) -> (r: Choice)
        ensures
            (*final(self), r) == old(self).keyed(key),
    {
        match key {
            Some(Key::Tab) => {
                self.mode.cycle();
                Choice::Ask
            },
            Some(Key::Esc) => Choice::Interrupted,
            _ => Choice::Chosen(self.mode),
        }
    }
}

/// A mode after going on to the next one `k` times.
pub open spec fn cycled(mode: ToolMode, k: nat) -> ToolMode
    decreases k,
{
    if k == 0 {
        mode
    } else {
        next_mode(cycled(mode, (k - 1) as nat))
    }
}

/// The prompt for the mode: what it has come to, and the modes that were shown,
/// one before each key that was waited for.
pub struct ModePrompt {
    pub executor: ToolExecutor,
    pub choice: Choice,
    pub shown: Seq<ToolMode>,
}

/// The prompt for the mode after several keys. It reads them for as long as it
/// asks, and no further.
pub open spec fn prompted(
    executor: ToolExecutor,
    shown_before: bool,
    keys: Seq<Option<Key>>,
) -> ModePrompt
    decreases keys.len(),
{
    if keys.len() == 0 {
        ModePrompt { executor, choice: executor.mode_choice(shown_before), shown: Seq::empty() }
    } else {
        let before = prompted(executor, shown_before, keys.drop_last());
        if before.choice == Choice::Ask {
            let (next, choice) = before.executor.keyed(keys.last());
            ModePrompt { executor: next, choice, shown: before.shown.push(before.executor.mode) }
        } else {
            before
        }
    }
}

/// Without confirmation, and after the first prompt, the mode is taken as it is:
/// nothing is shown, and no key is read.
pub proof fn law_the_mode_is_asked_for_once(
    executor: ToolExecutor,
    shown_before: bool,
    keys: Seq<Option<Key>>,
)
    requires
        executor.no_confirm || shown_before,
    ensures
        prompted(executor, shown_before, keys) == (ModePrompt {
            executor,
            choice: Choice::Chosen(executor.mode),
            shown: Seq::empty(),
        }),
    decreases keys.len(),
{
    if keys.len() > 0 {
        law_the_mode_is_asked_for_once(executor, shown_before, keys.drop_last());
    }
}

proof fn lemma_tabs_cycle(executor: ToolExecutor, keys: Seq<Option<Key>>)
    requires
        !executor.no_confirm,
        forall|i: int| 0 <= i < keys.len() ==> #[trigger] keys[i] == Some(Key::Tab),
    ensures
        prompted(executor, false, keys) == (ModePrompt {
            executor: ToolExecutor { mode: cycled(executor.mode, keys.len()), ..executor },
            choice: Choice::Ask,
            shown: Seq::new(keys.len(), |i: int| cycled(executor.mode, i as nat)),
        }),
    decreases keys.len(),
{
    let p = prompted(executor, false, keys);
    if keys.len() == 0 {
        assert(p.shown =~= Seq::new(keys.len(), |i: int| cycled(executor.mode, i as nat)));
    } else {
        lemma_tabs_cycle(executor, keys.drop_last());
        assert(keys.last() == Some(Key::Tab)) by {
            assert(keys[keys.len() - 1] == Some(Key::Tab));
        }
        assert(p.shown =~= Seq::new(keys.len(), |i: int| cycled(executor.mode, i as nat)));
    }
}

proof fn lemma_later_keys_are_not_read(
    executor: ToolExecutor,
    shown_before: bool,
    keys: Seq<Option<Key>>,
    n: int,
)
    requires
        0 <= n <= keys.len(),
        prompted(executor, shown_before, keys.take(n)).choice != Choice::Ask,
    ensures
        prompted(executor, shown_before, keys) == prompted(executor, shown_before, keys.take(n)),
    decreases keys.len(),
{
    if n == keys.len() {
        assert(keys.take(n) =~= keys);
    } else {
        assert(keys.drop_last().take(n) =~= keys.take(n));
        lemma_later_keys_are_not_read(executor, shown_before, keys.drop_last(), n);
    }
}

/// The mode goes on once for each Tab that comes first, each of these modes is
/// shown before the key that follows it, and that key behind the Tabs decides:
/// Esc interrupts, and anything else, also none in time, takes the mode. What
/// comes later is not read.
pub proof fn law_tabs_choose_the_mode(executor: ToolExecutor, keys: Seq<Option<Key>>, k: int)
    requires
        !executor.no_confirm,
        0 <= k < keys.len(),
        forall|i: int| 0 <= i < k ==> #[trigger] keys[i] == Some(Key::Tab),
        keys[k] != Some(Key::Tab),
    ensures
        prompted(executor, false, keys) == (ModePrompt {
            executor: ToolExecutor { mode: cycled(executor.mode, k as nat), ..executor },
            choice: if keys[k] == Some(Key::Esc) {
                Choice::Interrupted
            } else {
                Choice::Chosen(cycled(executor.mode, k as nat))
            },
            shown: Seq::new((k + 1) as nat, |i: int| cycled(executor.mode, i as nat)),
        }),
{
    let tabs = keys.take(k);
    let read = keys.take(k + 1);
    lemma_tabs_cycle(executor, tabs);
    assert(read.drop_last() =~= tabs);
    assert(read.last() == keys[k]);
    let p = prompted(executor, false, read);
    assert(p.shown =~= Seq::new((k + 1) as nat, |i: int| cycled(executor.mode, i as nat)));
    lemma_later_keys_are_not_read(executor, false, keys, k + 1);
}

/// Where a list of answers leads from a stage.
pub open spec fn after_answers(executor: ToolExecutor, stage: Stage, answers: Seq<bool>) -> Stage
    decreases answers.len(),
{
    if answers.len() == 0 {
        stage
    } else {
        executor.answered(
            after_answers(executor, stage, answers.drop_last()),
            answers.last(),
        )
    }
}

/// A tool that has to be confirmed never runs unless one of the user's answers
/// was yes.
pub proof fn law_no_tool_runs_without_a_yes(
    executor: ToolExecutor,
    name: Seq<char>,
    answers: Seq<bool>,
)
    requires
        executor.confirms(name),
        !answers.contains(true),
    ensures
        after_answers(executor, executor.starts(name), answers) != Stage::Running,
        answers.len() >= 2 ==> after_answers(executor, executor.starts(name), answers)
            == Stage::Declined,
    decreases answers.len(),
{
    if answers.len() > 0 {
        let before = answers.drop_last();
        assert(answers.contains(answers.last()));
        assert forall|b: bool| before.contains(b) implies answers.contains(b) by {
            let i = choose|i: int| 0 <= i < before.len() && before[i] == b;
            assert(answers[i] == b);
        }
        law_no_tool_runs_without_a_yes(executor, name, before);
        if before.len() > 0 {
            assert(answers.contains(before.last())) by {
                assert(answers[before.len() - 1] == before.last());
            }
            let first = before.drop_last();
            if first.len() == 0 {
                assert(after_answers(executor, executor.starts(name), first) == Stage::Confirming);
            }
        }
    }
}

/// Without confirmation, and in the automatic mode, every tool runs at once.
pub proof fn law_automatic_tools_run_at_once(executor: ToolExecutor, name: Seq<char>)
    requires
        executor.no_confirm || executor.mode == ToolMode::Auto,
    ensures
        executor.starts(name) == Stage::Running,
{
}

/// The wordings of the tools, in the user's language.
#[derive(Debug)]
pub struct ToolLabels {
    pub searching_packages: String,
    pub searched_packages: String,
    pub searching_web: String,
    pub searched_web: String,
    pub fetching: String,
    pub fetched: String,
}

/// The present and past tense label of a tool call, plus its keyword, so the
/// tool line can show what the ai is doing and what it finished doing.
#[derive(Debug)]
pub struct ToolWords {
    pub present: String,
    pub past: String,
    pub keyword: String,
}

/// The keyword of a call: its query, or its url if it has no query.
pub open spec fn keyword_of(args: JsonView) -> Seq<char> {
    let value = match args.get("query"@) {
        Some(v) => Some(v),
        None => args.get("url"@),
    };
    match value {
        Some(v) => match v.as_text() {
            Some(s) => s,
            None => Seq::empty(),
        },
        None => Seq::empty(),
    }
}

/// The label of a tool while it runs.
pub open spec fn present_of(labels: ToolLabels, name: Seq<char>) -> Seq<char> {
    if name == "search_packages"@ {
        labels.searching_packages@
    } else if name == "web_search"@ {
        labels.searching_web@
    } else if name == "web_fetch"@ {
        labels.fetching@
    } else {
        name
    }
}

/// The label of a tool once it has run.
pub open spec fn past_of(labels: ToolLabels, name: Seq<char>) -> Seq<char> {
    if name == "search_packages"@ {
        labels.searched_packages@
    } else if name == "web_search"@ {
        labels.searched_web@
    } else if name == "web_fetch"@ {
        labels.fetched@
    } else {
        name
    }
}

fn keyword_text(args: &Json) -> (r: String)
    ensures
        r@ == keyword_of(args@),
{
    let value = match args.get("query") {
        Some(v) => Some(v),
        None => args.get("url"),
    };
    match value {
        Some(v) => match v.as_text() {
            Some(s) => s.to_owned(),
            None => String::new(),
        },
        None => String::new(),
    }
}

/// The wording of a tool call.
pub fn tool_words(labels: &ToolLabels, name: &str, args: &Json) -> (r: ToolWords)
    ensures
        r.present@ == present_of(*labels, name@),
        r.past@ == past_of(*labels, name@),
        r.keyword@ == keyword_of(args@),
{
    let keyword = keyword_text(args);
    let (present, past) = if same(name, "search_packages") {
        (labels.searching_packages.clone(), labels.searched_packages.clone())
    } else if same(name, "web_search") {
        (labels.searching_web.clone(), labels.searched_web.clone())
    } else if same(name, "web_fetch") {
        (labels.fetching.clone(), labels.fetched.clone())
    } else {
        (name.to_owned(), name.to_owned())
    };
    ToolWords { present, past, keyword }
}

/// The styles of a tool line.
#[derive(Debug, Clone, Copy, PartialEq, Eq, Structural)]
pub struct ToolColors {
    pub action: TextStyle,
    pub bold: TextStyle,
    pub code: TextStyle,
}

/// A tool line: a marker, the label, the keyword in quotes if there is one, and
/// the question if it is asked.
pub open spec fn tool_line_of(
    colors: ToolColors,
    verb: Seq<char>,
    keyword: Seq<char>,
    question: Option<Seq<char>>,
) -> Seq<char> {
    let label = painted(colors.action, "##"@) + " "@ + painted(colors.bold, verb);
    let about = if keyword.len() == 0 {
        Seq::empty()
    } else {
        " "@ + painted(colors.code, "\""@ + keyword + "\""@)
    };
    let asked = match question {
        Some(q) => " "@ + painted(colors.bold, q),
        None => Seq::empty(),
    };
    label + about + asked
}

/// A colored tool status line, with the question at its end if one is asked.
pub fn tool_line(colors: &ToolColors, verb: &str, keyword: &str, question: Option<&str>) -> (r:
    String)
    ensures
        r@ == tool_line_of(
            *colors,
            verb@,
            keyword@,
            match question {
                Some(q) => Some(q@),
                None => None,
            },
        ),
{
    let mut line = paint(colors.action, "##");
    line.append(" ");
    line.append(paint(colors.bold, verb).as_str());
    if !keyword.is_empty() {
        let mut quoted = "\"".to_owned();
        quoted.append(keyword);
        quoted.append("\"");
        line.append(" ");
        line.append(paint(colors.code, quoted.as_str()).as_str());
    }
    if let Some(q) = question {
        line.append(" ");
        line.append(paint(colors.bold, q).as_str());
    }
    assert(line@ =~= tool_line_of(
        *colors,
        verb@,
        keyword@,
        match question {
            Some(q) => Some(q@),
            None => None,
        },
    ));
    line
}

/// The tool line of a stage: the past tense once the call is over, and the
/// question while it is confirmed.
pub open spec fn stage_line_of(
    colors: ToolColors,
    words: ToolWords,
    stage: Stage,
    question: Seq<char>,
) -> Seq<char> {
    let verb = if stage == Stage::Declined || stage == Stage::Finished {
        words.past@
    } else {
        words.present@
    };
    tool_line_of(
        colors,
        verb,
        words.keyword@,
        if stage == Stage::Confirming || stage == Stage::Switching {
            Some(question)
        } else {
            None
        },
    )
}

/// The tool line to show at a stage.
pub fn stage_line(colors: &ToolColors, words: &ToolWords, stage: Stage, question: &str) -> (r:
    String)
    ensures
        r@ == stage_line_of(*colors, *words, stage, question@),
{
    let verb = if stage == Stage::Declined || stage == Stage::Finished {
        words.past.as_str()
    } else {
        words.present.as_str()
    };
    let asked = if stage == Stage::Confirming || stage == Stage::Switching {
        Some(question)
    } else {
        None
    };
    tool_line(colors, verb, words.keyword.as_str(), asked)
}

/// A reply that gives a status instead of a result.
pub open spec fn status_tree(status: Seq<char>, message: Seq<char>) -> JsonView {
    JsonView::Object(
        seq![("status"@, JsonView::Text(status)), ("message"@, JsonView::Text(message))],
    )
}

/// Writes a reply that gives a status instead of a result.
pub fn status_reply(status: &str, message: &str) -> (r: String)
    ensures
        r@ == rendered(status_tree(status@, message@)),
{
    let mut o: Vec<(String, Json)> = Vec::new();
    o.push(("status".to_owned(), text(status)));
    o.push(("message".to_owned(), text(message)));
    assert(members(o@) =~= status_tree(status@, message@)->Object_0);
    let value = object(o);
    render(&value)
}

/// What the model is told about a tool the user did not let run.
pub fn declined_reply(message: &str) -> (r: String)
    ensures
        r@ == rendered(status_tree("declined"@, message@)),
{
    status_reply("declined", message)
}

/// A tool the model asked for, with what it is to work on.
#[derive(Debug)]
pub enum ToolRequest {
    SearchPackages(String),
    WebSearch(String),
    WebFetch(String),
    /// There is no tool of that name.
    Unavailable,
}

/// Whether a request is what a call asks for.
pub open spec fn requests(name: Seq<char>, args: JsonView, r: ToolRequest) -> bool {
    match r {
        ToolRequest::SearchPackages(q) => name == "search_packages"@ && q@ == args.text_or_empty(
            "query"@,
        ),
        ToolRequest::WebSearch(q) => name == "web_search"@ && q@ == args.text_or_empty("query"@),
        ToolRequest::WebFetch(u) => name == "web_fetch"@ && u@ == args.text_or_empty("url"@),
        ToolRequest::Unavailable => name != "search_packages"@ && name != "web_search"@ && name
            != "web_fetch"@,
    }
}

/// Reads a call of the model.
pub fn tool_request(name: &str, args: &Json) -> (r: ToolRequest)
    ensures
        requests(name@, args@, r),
{
    if same(name, "search_packages") {
        ToolRequest::SearchPackages(args.text_or_empty("query"))
    } else if same(name, "web_search") {
        ToolRequest::WebSearch(args.text_or_empty("query"))
    } else if same(name, "web_fetch") {
        ToolRequest::WebFetch(args.text_or_empty("url"))
    } else {
        ToolRequest::Unavailable
    }
}

/// The descriptions of the tools, in the user's language.
#[derive(Debug)]
pub struct SchemaWords {
    pub search_packages: String,
    pub search_term: String,
    pub web_search: String,
    pub search_query: String,
    pub web_fetch: String,
    pub fetch_url: String,
}

/// The parameters of a tool that takes one text.
pub open spec fn parameters_tree(argument: Seq<char>, about: Seq<char>) -> JsonView {
    JsonView::Object(
        seq![
            ("type"@, JsonView::Text("object"@)),
            (
                "properties"@,
                JsonView::Object(
                    seq![
                        (
                            argument,
                            JsonView::Object(
                                seq![
                                    ("type"@, JsonView::Text("string"@)),
                                    ("description"@, JsonView::Text(about)),
                                ],
                            ),
                        ),
                    ],
                ),
            ),
            ("required"@, JsonView::Array(seq![JsonView::Text(argument)])),
        ],
    )
}

/// The declaration of a tool that takes one text.
pub open spec fn tool_tree(
    name: Seq<char>,
    description: Seq<char>,
    argument: Seq<char>,
    about: Seq<char>,
) -> JsonView {
    JsonView::Object(
        seq![
            ("type"@, JsonView::Text("function"@)),
            (
                "function"@,
                JsonView::Object(
                    seq![
                        ("name"@, JsonView::Text(name)),
                        ("description"@, JsonView::Text(description)),
                        ("parameters"@, parameters_tree(argument, about)),
                    ],
                ),
            ),
        ],
    )
}

/// The declaration of every tool.
pub open spec fn schema_tree(words: SchemaWords) -> JsonView {
    JsonView::Array(
        seq![
            tool_tree(
                "search_packages"@,
                words.search_packages@,
                "query"@,
                words.search_term@,
            ),
            tool_tree("web_search"@, words.web_search@, "query"@, words.search_query@),
            tool_tree("web_fetch"@, words.web_fetch@, "url"@, words.fetch_url@),
        ],
    )
}

fn parameters(argument: &str, about: &str) -> (r: Json)
    ensures
        r@ == parameters_tree(argument@, about@),
{
    let mut kind: Vec<(String, Json)> = Vec::new();
    kind.push(("type".to_owned(), text("string")));
    kind.push(("description".to_owned(), text(about)));
    assert(members(kind@) =~= seq![
        ("type"@, JsonView::Text("string"@)),
        ("description"@, JsonView::Text(about@)),
    ]);
    let mut properties: Vec<(String, Json)> = Vec::new();
    properties.push((argument.to_owned(), object(kind)));
    let mut required: Vec<Json> = Vec::new();
    required.push(text(argument));
    assert(json_views(required@) =~= seq![JsonView::Text(argument@)]);
    let ghost tree = parameters_tree(argument@, about@)->Object_0;
    assert(members(properties@) =~= tree[1].1->Object_0);
    let mut o: Vec<(String, Json)> = Vec::new();
    o.push(("type".to_owned(), text("object")));
    o.push(("properties".to_owned(), object(properties)));
    o.push(("required".to_owned(), array(required)));
    assert(members(o@) =~= tree);
    object(o)
}

fn declaration(name: &str, description: &str, argument: &str, about: &str) -> (r: Json)
    ensures
        r@ == tool_tree(name@, description@, argument@, about@),
{
    let ghost tree = tool_tree(name@, description@, argument@, about@)->Object_0;
    let mut function: Vec<(String, Json)> = Vec::new();
    function.push(("name".to_owned(), text(name)));
    function.push(("description".to_owned(), text(description)));
    function.push(("parameters".to_owned(), parameters(argument, about)));
    assert(members(function@) =~= tree[1].1->Object_0);
    let mut o: Vec<(String, Json)> = Vec::new();
    o.push(("type".to_owned(), text("function")));
    o.push(("function".to_owned(), object(function)));
    assert(members(o@) =~= tree);
    object(o)
}

impl ToolExecutor {
    /// The tools declaration, describing every tool to the model.
    pub fn schema(words: &SchemaWords) -> (r: Json)
        ensures
            r@ == schema_tree(*words),
    {
        let mut tools: Vec<Json> = Vec::new();
        tools.push(
            declaration(
                "search_packages",
                words.search_packages.as_str(),
                "query",
                words.search_term.as_str(),
            ),
        );
        tools.push(
            declaration(
                "web_search",
                words.web_search.as_str(),
                "query",
                words.search_query.as_str(),
            ),
        );
        tools.push(
            declaration("web_fetch", words.web_fetch.as_str(), "url", words.fetch_url.as_str()),
        );
        assert(json_views(tools@) =~= schema_tree(*words)->Array_0);
        array(tools)
    }
}

/// Every tool that is declared to the model can be called, under its name.
pub proof fn law_every_declared_tool_is_available(
    words: SchemaWords,
    i: int,
    name: Seq<char>,
    args: JsonView,
    r: ToolRequest,
)
    requires
        0 <= i < schema_tree(words)->Array_0.len(),
        schema_tree(words)->Array_0[i].get("function"@) is Some,
        schema_tree(words)->Array_0[i].get("function"@)->0.text_at("name"@) == Some(name),
        requests(name, args, r),
    ensures
        !(r is Unavailable),
{
    let tool = schema_tree(words)->Array_0[i];
    let o = tool->Object_0;
    reveal_strlit("type");
    reveal_strlit("function");
    reveal_strlit("name");
    assert("type"@.len() != "function"@.len());
    reveal_with_fuel(crate::json::member_from, 3);
    assert(tool.get("function"@) == Some(o[1].1));
    assert(o[1].1.get("name"@) == Some(o[1].1->Object_0[0].1));
}

/// Every tool is confirmed while all are to be, whatever it is called; fetching a
/// page is the only one while only fetches are; and none is in the automatic mode or
/// when confirmation is off.
pub proof fn law_what_has_to_be_confirmed(executor: ToolExecutor, name: Seq<char>)
    ensures
        executor.no_confirm ==> executor.starts(name) == Stage::Running,
        executor.mode == ToolMode::Auto ==> executor.starts(name) == Stage::Running,
        !executor.no_confirm && executor.mode == ToolMode::AllConfirm ==> executor.starts(name)
            == Stage::Confirming,
        !executor.no_confirm && executor.mode == ToolMode::FetchConfirm ==> (executor.starts(name)
            == Stage::Confirming <==> name == "web_fetch"@),
        executor.starts(name) == Stage::Confirming || executor.starts(name) == Stage::Running,
{
}

/// Going on to the next mode confirms more, until every tool is confirmed, and then
/// starts over with none: what a mode asks for the next one asks for too.
pub proof fn law_the_next_mode_is_stricter(executor: ToolExecutor, name: Seq<char>)
    requires
        !executor.no_confirm,
    ensures
        ({
            let next = ToolExecutor { mode: next_mode(executor.mode), ..executor };
            &&& executor.mode != ToolMode::AllConfirm && executor.confirms(name) ==> next.confirms(
                name,
            )
            &&& executor.mode == ToolMode::Auto ==> next.confirms("web_fetch"@)
                && next_mode(next.mode) == ToolMode::AllConfirm
            &&& executor.mode == ToolMode::AllConfirm ==> !next.confirms(name)
        }),
{
}

/// A yes runs the tool at once. A no declines it, but for the mode that confirms
/// every tool, where it leads to the question whether to stop confirming: a yes to
/// that one runs the tool, and a no declines it. What was decided stays decided.
pub proof fn law_answers_decide_over_a_tool(executor: ToolExecutor, yes: bool)
    ensures
        executor.answered(Stage::Confirming, true) == Stage::Running,
        executor.mode == ToolMode::AllConfirm ==> executor.answered(Stage::Confirming, false)
            == Stage::Switching,
        executor.mode != ToolMode::AllConfirm ==> executor.answered(Stage::Confirming, false)
            == Stage::Declined,
        executor.answered(Stage::Switching, true) == Stage::Running,
        executor.answered(Stage::Switching, false) == Stage::Declined,
        executor.answered(Stage::Running, yes) == Stage::Running,
        executor.answered(Stage::Declined, yes) == Stage::Declined,
        executor.answered(Stage::Finished, yes) == Stage::Finished,
{
}

/// The letters y and n answer a question in either case, Enter like y and Escape
/// like n, and no other key answers it.
pub proof fn law_single_keys_answer(key: Key)
    ensures
        key_answer(key) == Some(true) <==> key == Key::Char('y') || key == Key::Char('Y') || key
            == Key::Enter,
        key_answer(key) == Some(false) <==> key == Key::Char('n') || key == Key::Char('N') || key
            == Key::Esc,
{
}

/// At the prompt for the mode a Tab shows the next mode and asks on, Escape
/// interrupts and leaves the mode, and any other key, or none in time, takes the mode
/// that is shown.
pub proof fn law_keys_at_the_mode_prompt(executor: ToolExecutor, key: Option<Key>)
    ensures
        executor.keyed(Some(Key::Tab)).1 == Choice::Ask,
        executor.keyed(Some(Key::Tab)).0.mode == next_mode(executor.mode),
        executor.keyed(Some(Key::Esc)).1 == Choice::Interrupted,
        key != Some(Key::Tab) ==> executor.keyed(key).0 == executor,
        key != Some(Key::Tab) && key != Some(Key::Esc) ==> executor.keyed(key).1 == Choice::Chosen(
            executor.mode,
        ),
        executor.keyed(key).0.no_confirm == executor.no_confirm,
        executor.mode_choice(false) == Choice::Ask <==> !executor.no_confirm,
        executor.mode_choice(true) == Choice::Chosen(executor.mode),
        executor.no_confirm ==> executor.mode_choice(false) == Choice::Chosen(executor.mode),
{
}

/// A call is announced by its query, and by its url only if it has none; anything
/// but a text announces nothing.
pub proof fn law_a_call_is_announced_by_what_it_is_about(args: JsonView)
    ensures
        args.text_at("query"@) is Some ==> keyword_of(args) == args.text_at("query"@)->0,
        args.get("query"@) is None ==> keyword_of(args) == args.text_or_empty("url"@),
        args.get("query"@) is Some && args.text_at("query"@) is None ==> keyword_of(args).len()
            == 0,
{
}

/// Each tool is announced in its own words, while it runs and once it has run; one
/// that does not exist is announced by its name.
pub proof fn law_each_tool_has_its_words(labels: ToolLabels, name: Seq<char>)
    ensures
        present_of(labels, "search_packages"@) == labels.searching_packages@,
        past_of(labels, "search_packages"@) == labels.searched_packages@,
        present_of(labels, "web_search"@) == labels.searching_web@,
        past_of(labels, "web_search"@) == labels.searched_web@,
        present_of(labels, "web_fetch"@) == labels.fetching@,
        past_of(labels, "web_fetch"@) == labels.fetched@,
        name != "search_packages"@ && name != "web_search"@ && name != "web_fetch"@ ==> present_of(
            labels,
            name,
        ) == name && past_of(labels, name) == name,
{
    lemma_tool_names_differ();
}

proof fn lemma_tool_names_differ()
    ensures
        "search_packages"@ != "web_search"@,
        "search_packages"@ != "web_fetch"@,
        "web_search"@ != "web_fetch"@,
{
    reveal_strlit("search_packages");
    reveal_strlit("web_search");
    reveal_strlit("web_fetch");
    assert("search_packages"@.len() == 15);
    assert("web_search"@.len() == 10);
    assert("web_fetch"@.len() == 9);
}

/// A tool line shows what is done, what it is about in quotes, unless that is empty,
/// and the question if one is asked, in this order.
pub proof fn law_a_tool_line_shows_what_is_done(
    colors: ToolColors,
    verb: Seq<char>,
    keyword: Seq<char>,
    question: Seq<char>,
)
    ensures
        ({
            let label = painted(colors.action, seq!['#', '#']) + seq![' '] + painted(
                colors.bold,
                verb,
            );
            let about = seq![' '] + painted(colors.code, seq!['"'] + keyword + seq!['"']);
            let asked = seq![' '] + painted(colors.bold, question);
            &&& keyword.len() > 0 ==> tool_line_of(colors, verb, keyword, Some(question)) == label
                + about + asked
            &&& keyword.len() > 0 ==> tool_line_of(colors, verb, keyword, None) == label + about
            &&& tool_line_of(colors, verb, Seq::empty(), Some(question)) == label + asked
            &&& tool_line_of(colors, verb, Seq::empty(), None) == label
        }),
{
    reveal_strlit("##");
    reveal_strlit(" ");
    reveal_strlit("\"");
    assert("##"@ =~= seq!['#', '#']);
    assert(" "@ =~= seq![' ']);
    assert("\""@ =~= seq!['"']);
    let none = Seq::<char>::empty();
    let label = painted(colors.action, seq!['#', '#']) + seq![' '] + painted(colors.bold, verb);
    let about = seq![' '] + painted(colors.code, seq!['"'] + keyword + seq!['"']);
    let asked = seq![' '] + painted(colors.bold, question);
    assert(label + about + none =~= label + about);
    assert(label + none + asked =~= label + asked);
    assert(label + none + none =~= label);
}

/// A tool is announced in the present until its call is over, and then in the past;
/// the question stands there only while it is asked.
pub proof fn law_a_tool_line_follows_its_stage(
    colors: ToolColors,
    words: ToolWords,
    stage: Stage,
    question: Seq<char>,
)
    ensures
        stage == Stage::Confirming || stage == Stage::Switching ==> stage_line_of(
            colors,
            words,
            stage,
            question,
        ) == tool_line_of(colors, words.present@, words.keyword@, Some(question)),
        stage == Stage::Running ==> stage_line_of(colors, words, stage, question) == tool_line_of(
            colors,
            words.present@,
            words.keyword@,
            None,
        ),
        stage == Stage::Declined || stage == Stage::Finished ==> stage_line_of(
            colors,
            words,
            stage,
            question,
        ) == tool_line_of(colors, words.past@, words.keyword@, None),
{
}

/// A reply that gives a status holds the status and the message under these keys.
pub proof fn law_a_status_is_told(status: Seq<char>, message: Seq<char>)
    ensures
        status_tree(status, message).text_at("status"@) == Some(status),
        status_tree(status, message).text_at("message"@) == Some(message),
{
    let o = status_tree(status, message)->Object_0;
    reveal_strlit("status");
    reveal_strlit("message");
    assert("status"@.len() != "message"@.len());
    law_a_member_is_found_by_its_key(o, "status"@, 0);
    law_a_member_is_found_by_its_key(o, "message"@, 1);
}

/// A call runs the tool it names, on the text that it hands over: the query of a
/// search, and the url of a page.
pub proof fn law_a_call_runs_the_tool_it_names(name: Seq<char>, args: JsonView, r: ToolRequest)
    requires
        requests(name, args, r),
    ensures
        name == "search_packages"@ ==> r is SearchPackages && r->SearchPackages_0@
            == args.text_or_empty("query"@),
        name == "web_search"@ ==> r is WebSearch && r->WebSearch_0@ == args.text_or_empty(
            "query"@,
        ),
        name == "web_fetch"@ ==> r is WebFetch && r->WebFetch_0@ == args.text_or_empty("url"@),
        name != "search_packages"@ && name != "web_search"@ && name != "web_fetch"@
            ==> r is Unavailable,
{
    lemma_tool_names_differ();
}

/// The declaration of a tool tells its name, its description, and that it has to be
/// handed one text, under the name and with the description of its argument.
pub proof fn law_a_declaration_describes_its_tool(
    name: Seq<char>,
    description: Seq<char>,
    argument: Seq<char>,
    about: Seq<char>,
)
    ensures
        ({
            let tool = tool_tree(name, description, argument, about);
            &&& tool.text_at("type"@) == Some("function"@)
            &&& tool.get("function"@) is Some
            &&& {
                let function = tool.get("function"@)->0;
                &&& function.text_at("name"@) == Some(name)
                &&& function.text_at("description"@) == Some(description)
                &&& function.get("parameters"@) == Some(parameters_tree(argument, about))
            }
            &&& {
                let parameters = parameters_tree(argument, about);
                &&& parameters.text_at("type"@) == Some("object"@)
                &&& parameters.array_at("required"@) == Some(seq![JsonView::Text(argument)])
                &&& parameters.get("properties"@) is Some
                &&& parameters.get("properties"@)->0.get(argument) is Some
                &&& parameters.get("properties"@)->0.get(argument)->0.text_at("type"@) == Some(
                    "string"@,
                )
                &&& parameters.get("properties"@)->0.get(argument)->0.text_at("description"@)
                    == Some(about)
            }
        }),
{
    reveal_strlit("type");
    reveal_strlit("function");
    reveal_strlit("name");
    reveal_strlit("description");
    reveal_strlit("parameters");
    reveal_strlit("properties");
    reveal_strlit("required");
    assert("type"@.len() == 4 && "function"@.len() == 8 && "name"@.len() == 4);
    assert("description"@.len() == 11 && "parameters"@.len() == 10 && "properties"@.len() == 10);
    assert("required"@.len() == 8);
    let tool = tool_tree(name, description, argument, about)->Object_0;
    let function = tool[1].1->Object_0;
    let parameters = parameters_tree(argument, about)->Object_0;
    let properties = parameters[1].1->Object_0;
    let kind = properties[0].1->Object_0;
    law_a_member_is_found_by_its_key(tool, "type"@, 0);
    law_a_member_is_found_by_its_key(tool, "function"@, 1);
    law_a_member_is_found_by_its_key(function, "name"@, 0);
    law_a_member_is_found_by_its_key(function, "description"@, 1);
    law_a_member_is_found_by_its_key(function, "parameters"@, 2);
    law_a_member_is_found_by_its_key(parameters, "type"@, 0);
    law_a_member_is_found_by_its_key(parameters, "properties"@, 1);
    law_a_member_is_found_by_its_key(parameters, "required"@, 2);
    law_a_member_is_found_by_its_key(properties, argument, 0);
    law_a_member_is_found_by_its_key(kind, "type"@, 0);
    law_a_member_is_found_by_its_key(kind, "description"@, 1);
}

/// All tools are declared to the model, each with the argument that its call reads.
pub proof fn law_every_tool_is_declared(words: SchemaWords)
    ensures
        schema_tree(words)->Array_0 == seq![
            tool_tree(
                "search_packages"@,
                words.search_packages@,
                "query"@,
                words.search_term@,
            ),
            tool_tree("web_search"@, words.web_search@, "query"@, words.search_query@),
            tool_tree("web_fetch"@, words.web_fetch@, "url"@, words.fetch_url@),
        ],
{
}

} // verus!
