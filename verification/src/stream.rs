//! A streamed completion: tool calls put together from fragments, and the text
//! and reasoning that arrive beside them.

use crate::chat::{call_views, opt_text, CallView, Completion, ToolCall};
use crate::json::{json_of, json_views, parse, Json, JsonView};
use crate::sse::{
    complete_lines, law_chunk_boundaries_do_not_matter, partial_line, sse_data, sse_payload,
    SseBuffer,
};
use crate::text::{lemma_texts_push, same, texts};
use vstd::prelude::*;

verus! {

/// A call of which fragments have arrived: its arguments are kept as the text
/// they arrive as, and there are none before their first fragment.
#[derive(Debug)]
pub struct PartialCall {
    pub id: String,
    pub name: String,
    pub arguments: Option<String>,
}

/// What a [`PartialCall`] stands for.
pub struct PartialView {
    pub id: Seq<char>,
    pub name: Seq<char>,
    pub arguments: Option<Seq<char>>,
}

impl View for PartialCall {
    type V = PartialView;

    open spec fn view(&self) -> PartialView {
        PartialView { id: self.id@, name: self.name@, arguments: opt_text(self.arguments) }
    }
}

/// The views of a sequence of calls.
pub open spec fn partial_views(calls: Seq<PartialCall>) -> Seq<PartialView> {
    Seq::new(calls.len(), |i: int| calls[i]@)
}

/// A call of which nothing has arrived yet.
pub open spec fn blank_call() -> PartialView {
    PartialView { id: Seq::empty(), name: Seq::empty(), arguments: None }
}

/// The calls, followed by blank ones until there are `n`.
pub open spec fn padded(calls: Seq<PartialView>, n: int) -> Seq<PartialView> {
    if n <= calls.len() {
        calls
    } else {
        calls + Seq::new((n - calls.len()) as nat, |i: int| blank_call())
    }
}

/// A member of the `function` member of a fragment, when it is a string.
pub open spec fn function_text(call: JsonView, key: Seq<char>) -> Option<Seq<char>> {
    match call.get("function"@) {
        Some(f) => f.text_at(key),
        None => None,
    }
}

/// The text of the arguments with another piece behind it.
pub open spec fn extended(arguments: Option<Seq<char>>, piece: Seq<char>) -> Option<Seq<char>> {
    match arguments {
        Some(s) => Some(s + piece),
        None => Some(piece),
    }
}

/// The arguments that a text stands for: its JSON, or the text itself where it
/// is none.
pub open spec fn arguments_of(arguments: Option<Seq<char>>) -> JsonView {
    match arguments {
        Some(s) => match json_of(s) {
            Some(v) => v,
            None => JsonView::Text(s),
        },
        None => JsonView::Null,
    }
}

/// The position in the list of calls that a fragment belongs to.
pub open spec fn fragment_index(call: JsonView) -> usize {
    match call.get("index"@) {
        Some(v) => match v.as_unsigned() {
            Some(n) => n as usize,
            None => 0,
        },
        None => 0,
    }
}

/// A call after one fragment of it.
pub open spec fn with_fragment(c: PartialView, call: JsonView) -> PartialView {
    PartialView {
        id: match call.text_at("id"@) {
            Some(s) => s,
            None => c.id,
        },
        name: match function_text(call, "name"@) {
            Some(s) => s,
            None => c.name,
        },
        arguments: match function_text(call, "arguments"@) {
            Some(s) => extended(c.arguments, s),
            None => c.arguments,
        },
    }
}

/// The calls after one fragment.
pub open spec fn add_fragment(calls: Seq<PartialView>, call: JsonView) -> Seq<PartialView> {
    let i = fragment_index(call) as int;
    let all = padded(calls, i + 1);
    all.update(i, with_fragment(all[i], call))
}

/// The calls after several fragments.
pub open spec fn add_fragments(calls: Seq<PartialView>, list: Seq<JsonView>) -> Seq<PartialView>
    decreases list.len(),
{
    if list.len() == 0 {
        calls
    } else {
        add_fragment(add_fragments(calls, list.drop_last()), list.last())
    }
}

/// The calls after a delta: nothing changes unless it carries `tool_calls`.
pub open spec fn add_delta(calls: Seq<PartialView>, delta: JsonView) -> Seq<PartialView> {
    match delta.array_at("tool_calls"@) {
        Some(list) => add_fragments(calls, list),
        None => calls,
    }
}

/// Whether a call has both an id and a name.
pub open spec fn is_complete(c: PartialView) -> bool {
    c.id.len() > 0 && c.name.len() > 0
}

/// The call that has arrived.
pub open spec fn arrived(c: PartialView) -> CallView {
    CallView { id: c.id, name: c.name, arguments: arguments_of(c.arguments) }
}

/// The calls that can be run.
pub open spec fn complete_calls(calls: Seq<PartialView>) -> Seq<CallView> {
    calls.filter(|c: PartialView| is_complete(c)).map_values(|c: PartialView| arrived(c))
}

/// Reassembles streamed delta.tool_calls fragments into complete calls.
#[derive(Debug)]
pub struct ToolCallAccumulator {
    pub calls: Vec<PartialCall>,
}

impl Default for ToolCallAccumulator {
    fn default() -> (r: Self)
        ensures
            r@ == Seq::<PartialView>::empty(),
    {
        let r = ToolCallAccumulator { calls: Vec::new() };
        assert(r@ =~= Seq::<PartialView>::empty());
        r
    }
}

impl View for ToolCallAccumulator {
    type V = Seq<PartialView>;

    open spec fn view(&self) -> Seq<PartialView> {
        partial_views(self.calls@)
    }
}

fn function_member<'a>(call: &'a Json, key: &str) -> (r: Option<&'a str>)
    ensures
        match r {
            Some(s) => function_text(call@, key@) == Some(s@),
            None => function_text(call@, key@) is None,
        },
{
    match call.get("function") {
        Some(f) => f.text_at(key),
        None => None,
    }
}

fn read_arguments(arguments: Option<String>) -> (r: Json)
    ensures
        r@ == arguments_of(opt_text(arguments)),
{
    match arguments {
        Some(s) => match parse(s.as_str()) {
            Some(v) => v,
            None => Json::Text(s),
        },
        None => Json::Null,
    }
}

impl ToolCallAccumulator {
    /// Takes in the fragments a delta carries.
    pub fn push(&mut self, delta: &Json)
        ensures
            final(self)@ == add_delta(old(self)@, delta@),
    {
        let calls = match delta.array_at("tool_calls") {
            Some(calls) => calls,
            None => {
                return ;
            },
        };
        let ghost list = json_views(calls@);
        let mut i: usize = 0;
        assert(list.take(0) =~= Seq::<JsonView>::empty());
        while i < calls.len()
            invariant
                i <= calls@.len(),
                list == json_views(calls@),
                self@ == add_fragments(old(self)@, list.take(i as int)),
            decreases calls@.len() - i,
        {
            self.add(&calls[i]);
            i += 1;
            proof {
                assert(list.take(i as int).drop_last() =~= list.take(i - 1));
                assert(list.take(i as int).last() == list[i - 1]);
            }
        }
        assert(list.take(i as int) =~= list);
    }

    fn add(&mut self, call: &Json)
        ensures
            final(self)@ == add_fragment(old(self)@, call@),
    {
        let index: usize = match call.get("index") {
            Some(v) => match v.as_unsigned() {
                Some(n) => n as usize,
                None => 0,
            },
            None => 0,
        };
        let ghost start = self@;
        assert(padded(start, start.len() as int) =~= start);
        while self.calls.len() <= index
            invariant
                self@.len() >= start.len(),
                self@.len() <= index + 1 || self@ == start,
                self@ == padded(start, self@.len() as int),
            decreases index + 1 - self.calls@.len(),
        {
            let ghost before = self@;
            self.calls.push(
                PartialCall { id: String::new(), name: String::new(), arguments: None },
            );
            assert(self@ =~= before.push(blank_call()));
            assert(self@ =~= padded(start, self@.len() as int));
        }
        let ghost all = self@;
        assert(all =~= padded(start, index + 1));
        let id = match call.text_at("id") {
            Some(id) => id.to_owned(),
            None => self.calls[index].id.clone(),
        };
        let name = match function_member(call, "name") {
            Some(name) => name.to_owned(),
            None => self.calls[index].name.clone(),
        };
        let mut arguments = match &self.calls[index].arguments {
            Some(s) => Some(s.clone()),
            None => None,
        };
        if let Some(piece) = function_member(call, "arguments") {
            let mut whole = match arguments {
                Some(s) => s,
                None => String::new(),
            };
            whole.append(piece);
            assert(extended(all[index as int].arguments, piece@) =~= Some(whole@)) by {
                assert(Seq::<char>::empty() + piece@ =~= piece@);
            }
            arguments = Some(whole);
        }
        self.calls[index] = PartialCall { id, name, arguments };
        assert(self@ =~= all.update(index as int, with_fragment(all[index as int], call@)));
    }

    /// The calls that arrived whole; one without an id or a name is dropped.
    pub fn finish(self) -> (r: Vec<ToolCall>)
        ensures
            call_views(r@) == complete_calls(self@),
    {
        let ghost all = self@;
        let ghost complete = |c: PartialView| is_complete(c);
        let ghost read = |c: PartialView| arrived(c);
        let ghost mut n: int = 0;
        let mut calls = self.calls;
        let mut out: Vec<ToolCall> = Vec::new();
        proof {
            assert(all.take(0) =~= Seq::<PartialView>::empty());
            assert(partial_views(calls@) =~= all.skip(0));
            reveal(Seq::filter);
            assert(call_views(out@) =~= all.take(0).filter(complete).map_values(read));
        }
        while calls.len() > 0
            invariant
                0 <= n <= all.len(),
                complete == (|c: PartialView| is_complete(c)),
                read == (|c: PartialView| arrived(c)),
                partial_views(calls@) == all.skip(n),
                call_views(out@) == all.take(n).filter(complete).map_values(read),
            decreases calls@.len(),
        {
            let ghost before = calls@;
            let call = calls.remove(0);
            proof {
                assert(partial_views(before).len() == before.len());
                assert(partial_views(before)[0] == all.skip(n)[0]);
                assert(all.take(n + 1) =~= all.take(n).push(all[n]));
                all.take(n).lemma_filter_push(all[n], complete);
                assert forall|k: int| 0 <= k < calls@.len() implies calls@[k]@ == all[n + 1
                    + k] by {
                    assert(partial_views(before)[k + 1] == all.skip(n)[k + 1]);
                }
                assert(partial_views(calls@) =~= all.skip(n + 1));
            }
            if !call.id.as_str().is_empty() && !call.name.as_str().is_empty() {
                let ghost view = call@;
                let whole = ToolCall {
                    id: call.id,
                    name: call.name,
                    arguments: read_arguments(call.arguments),
                };
                proof {
                    let kept = all.take(n).filter(complete);
                    assert(whole@ == arrived(view));
                    assert(call_views(out@.push(whole)) =~= call_views(out@).push(whole@));
                    assert(kept.push(view).map_values(read) =~= kept.map_values(read).push(
                        arrived(view),
                    ));
                }
                out.push(whole);
            }
            proof {
                n = n + 1;
            }
        }
        assert(all.take(n) =~= all) by {
            assert(all.skip(n).len() == 0);
        }
        out
    }
}

/// The texts of several pieces, one after the other.
pub open spec fn all_pieces(pieces: Seq<Seq<char>>) -> Seq<char>
    decreases pieces.len(),
{
    if pieces.len() == 0 {
        Seq::empty()
    } else {
        all_pieces(pieces.drop_last()) + pieces.last()
    }
}

/// The text of the arguments after several pieces of them.
pub open spec fn extended_all(arguments: Option<Seq<char>>, pieces: Seq<Seq<char>>) -> Option<
    Seq<char>,
>
    decreases pieces.len(),
{
    if pieces.len() == 0 {
        arguments
    } else {
        extended(extended_all(arguments, pieces.drop_last()), pieces.last())
    }
}

/// Arguments cut into pieces anywhere come out as if they had arrived at once:
/// the pieces are put together, and read as a whole.
pub proof fn law_fragments_reassemble(pieces: Seq<Seq<char>>)
    requires
        pieces.len() > 0,
    ensures
        extended_all(None, pieces) == Some(all_pieces(pieces)),
        arguments_of(extended_all(None, pieces)) == arguments_of(Some(all_pieces(pieces))),
    decreases pieces.len(),
{
    let p = pieces.drop_last();
    if p.len() == 0 {
        assert(all_pieces(p) =~= Seq::<char>::empty());
        assert(all_pieces(pieces) =~= pieces.last());
    } else {
        law_fragments_reassemble(p);
    }
}

/// A call after several fragments of it.
pub open spec fn with_fragments(c: PartialView, list: Seq<JsonView>) -> PartialView
    decreases list.len(),
{
    if list.len() == 0 {
        c
    } else {
        with_fragment(with_fragments(c, list.drop_last()), list.last())
    }
}

/// Fragments that each carry a piece of a call's arguments reassemble: the call
/// has the arguments that the pieces are together.
pub proof fn law_calls_reassemble(list: Seq<JsonView>, pieces: Seq<Seq<char>>)
    requires
        list.len() > 0,
        list.len() == pieces.len(),
        forall|i: int|
            0 <= i < list.len() ==> function_text(#[trigger] list[i], "arguments"@) == Some(
                pieces[i],
            ),
    ensures
        arrived(with_fragments(blank_call(), list)).arguments == arguments_of(
            Some(all_pieces(pieces)),
        ),
{
    lemma_fragments_extend(list, pieces);
    law_fragments_reassemble(pieces);
}

proof fn lemma_fragments_extend(list: Seq<JsonView>, pieces: Seq<Seq<char>>)
    requires
        list.len() == pieces.len(),
        forall|i: int|
            0 <= i < list.len() ==> function_text(#[trigger] list[i], "arguments"@) == Some(
                pieces[i],
            ),
    ensures
        with_fragments(blank_call(), list).arguments == extended_all(None, pieces),
    decreases list.len(),
{
    if list.len() > 0 {
        let p = list.drop_last();
        let q = pieces.drop_last();
        assert forall|i: int| 0 <= i < p.len() implies function_text(
            #[trigger] p[i],
            "arguments"@,
        ) == Some(q[i]) by {
            assert(p[i] == list[i]);
        }
        lemma_fragments_extend(p, q);
        assert(function_text(list[list.len() - 1], "arguments"@) == Some(pieces.last()));
    }
}

/// What has arrived of a completion, besides bytes of an unfinished line.
pub struct Progress {
    pub calls: Seq<PartialView>,
    pub content: Seq<char>,
    pub reasoning: Seq<char>,
    /// The pieces of reasoning, as they are to be shown.
    pub shown: Seq<Seq<char>>,
    /// What the provider said went wrong.
    pub error: Option<Seq<char>>,
}

/// The first choice's delta in an event.
pub open spec fn delta_of(event: JsonView) -> Option<JsonView> {
    match event.array_at("choices"@) {
        Some(choices) => if choices.len() > 0 {
            choices[0].get("delta"@)
        } else {
            None
        },
        None => None,
    }
}

/// The message in an error the provider sent.
pub open spec fn error_message(err: JsonView) -> Seq<char> {
    match err.text_at("message"@) {
        Some(s) => s,
        None => "unknown error"@,
    }
}

/// Progress after one event.
pub open spec fn after_event(p: Progress, event: JsonView) -> Progress {
    match event.get("error"@) {
        Some(err) => Progress { error: Some(error_message(err)), ..p },
        None => match delta_of(event) {
            Some(delta) => {
                let reasoning = delta.text_or_empty("reasoning_content"@);
                Progress {
                    calls: add_delta(p.calls, delta),
                    content: p.content + delta.text_or_empty("content"@),
                    reasoning: p.reasoning + reasoning,
                    shown: if reasoning.len() > 0 {
                        p.shown.push(reasoning)
                    } else {
                        p.shown
                    },
                    error: p.error,
                }
            },
            None => p,
        },
    }
}

/// Progress after one line. Lines without a payload, the end marker and
/// payloads that are not JSON change nothing.
pub open spec fn after_line(p: Progress, line: Seq<char>) -> Progress {
    match sse_payload(line) {
        Some(data) => if data == "[DONE]"@ {
            p
        } else {
            match json_of(data) {
                Some(event) => after_event(p, event),
                None => p,
            }
        },
        None => p,
    }
}

/// Progress after several lines; nothing behind an error counts.
pub open spec fn after_lines(p: Progress, lines: Seq<Seq<char>>) -> Progress
    decreases lines.len(),
{
    if lines.len() == 0 {
        p
    } else {
        let q = after_lines(p, lines.drop_last());
        if q.error is Some {
            q
        } else {
            after_line(q, lines.last())
        }
    }
}

proof fn lemma_after_lines_append(p: Progress, a: Seq<Seq<char>>, b: Seq<Seq<char>>)
    ensures
        after_lines(p, a + b) == if after_lines(p, a).error is Some {
            after_lines(p, a)
        } else {
            after_lines(after_lines(p, a), b)
        },
    decreases b.len(),
{
    if b.len() == 0 {
        assert(a + b =~= a);
    } else {
        lemma_after_lines_append(p, a, b.drop_last());
        assert((a + b).drop_last() =~= a + b.drop_last());
        assert((a + b).last() == b.last());
    }
}

/// A completion comes out the same however its bytes are cut into chunks:
/// draining after the first chunk and again after the second leads to the same
/// progress, and the same bytes held back, as draining both at once.
pub proof fn law_completion_ignores_chunking(p: Progress, a: Seq<u8>, b: Seq<u8>)
    requires
        after_lines(p, complete_lines(a)).error is None,
    ensures
        after_lines(p, complete_lines(a + b)) == after_lines(
            after_lines(p, complete_lines(a)),
            complete_lines(partial_line(a) + b),
        ),
        partial_line(a + b) == partial_line(partial_line(a) + b),
{
    law_chunk_boundaries_do_not_matter(a, b);
    lemma_after_lines_append(p, complete_lines(a), complete_lines(partial_line(a) + b));
}

/// A completion that is being received.
#[derive(Debug)]
pub struct CompletionStream {
    pub buffer: SseBuffer,
    pub acc: ToolCallAccumulator,
    pub content: String,
    pub reasoning: String,
}

/// What came of the complete lines that were drained.
#[derive(Debug)]
pub struct Drained {
    /// The pieces of reasoning, in order, for showing.
    pub shown: Vec<String>,
    /// What the provider said went wrong, which ends the completion.
    pub error: Option<String>,
}

impl CompletionStream {
    /// What has arrived, with nothing shown yet and nothing wrong.
    pub open spec fn progress(self) -> Progress {
        Progress {
            calls: self.acc@,
            content: self.content@,
            reasoning: self.reasoning@,
            shown: Seq::empty(),
            error: None,
        }
    }

    /// A completion of which nothing has arrived.
    pub fn new() -> (r: Self)
        ensures
            r.buffer.buf@ == Seq::<u8>::empty(),
            r.acc@ == Seq::<PartialView>::empty(),
            r.content@ == Seq::<char>::empty(),
            r.reasoning@ == Seq::<char>::empty(),
    {
        CompletionStream {
            buffer: SseBuffer::default(),
            acc: ToolCallAccumulator::default(),
            content: String::new(),
            reasoning: String::new(),
        }
    }

    /// Takes in one chunk, without reading it yet.
    pub fn push(&mut self, chunk: &[u8])
        ensures
            final(self).buffer.buf@ == old(self).buffer.buf@ + chunk@,
            final(self).progress() == old(self).progress(),
    {
        self.buffer.push(chunk);
    }

    /// Reads the lines that are complete.
    pub fn drain(&mut self) -> (r: Drained)
        ensures
            final(self).buffer.buf@ == partial_line(old(self).buffer.buf@),
            ({
                let after = after_lines(
                    old(self).progress(),
                    complete_lines(old(self).buffer.buf@),
                );
                &&& texts(r.shown@) == after.shown
                &&& match r.error {
                    Some(e) => after.error == Some(e@),
                    None => after.error is None,
                }
                &&& final(self).acc@ == after.calls
                &&& final(self).content@ == after.content
                &&& final(self).reasoning@ == after.reasoning
            }),
    {
        let ghost start = self.progress();
        let lines = self.buffer.lines();
        let ghost all = texts(lines@);
        let mut shown: Vec<String> = Vec::new();
        let mut i: usize = 0;
        proof {
            assert(all.take(0) =~= Seq::<Seq<char>>::empty());
            assert(texts(shown@) =~= Seq::<Seq<char>>::empty());
        }
        while i < lines.len()
            invariant
                i <= lines@.len(),
                all == texts(lines@),
                all == complete_lines(old(self).buffer.buf@),
                start == old(self).progress(),
                self.buffer.buf@ == partial_line(old(self).buffer.buf@),
                after_lines(start, all.take(i as int)) == with_shown(
                    self.progress(),
                    texts(shown@),
                ),
            decreases lines@.len() - i,
        {
            let ghost before = with_shown(self.progress(), texts(shown@));
            proof {
                assert(all.take(i + 1).drop_last() =~= all.take(i as int));
                assert(all.take(i + 1).last() == lines@[i as int]@);
                assert(after_lines(start, all.take(i + 1)) == after_line(
                    before,
                    lines@[i as int]@,
                ));
            }
            match self.line(lines[i].as_str()) {
                LineEffect::Nothing => {},
                LineEffect::Shown(piece) => {
                    proof {
                        lemma_texts_push(shown@, piece);
                    }
                    shown.push(piece);
                },
                LineEffect::Failed(e) => {
                    proof {
                        assert(after_lines(start, all.take(i + 1)).error is Some);
                        lemma_after_lines_append(start, all.take(i + 1), all.skip(i + 1));
                        assert(all =~= all.take(i + 1) + all.skip(i + 1));
                    }
                    return Drained { shown, error: Some(e) };
                },
            }
            i += 1;
        }
        assert(all.take(i as int) =~= all);
        Drained { shown, error: None }
    }

    fn line(&mut self, line: &str) -> (r: LineEffect)
        ensures
            final(self).buffer == old(self).buffer,
            forall|shown: Seq<Seq<char>>|
                after_line(#[trigger] with_shown(old(self).progress(), shown), line@)
                    == effect_progress(final(self).progress(), shown, r),
    {
        let data = match sse_data(line) {
            Some(data) => data,
            None => {
                return LineEffect::Nothing;
            },
        };
        if same(data, "[DONE]") {
            return LineEffect::Nothing;
        }
        let event = match parse(data) {
            Some(event) => event,
            // Keepalives and provider-specific noise are not fatal.
            None => {
                return LineEffect::Nothing;
            },
        };
        if let Some(err) = event.get("error") {
            let message = match err.text_at("message") {
                Some(m) => m.to_owned(),
                None => "unknown error".to_owned(),
            };
            return LineEffect::Failed(message);
        }
        let delta = match first_delta(&event) {
            Some(delta) => delta,
            None => {
                return LineEffect::Nothing;
            },
        };
        self.acc.push(delta);
        // Some models put their thinking in reasoning_content, others in content.
        // Collect both but only content goes into the final reply.
        let piece = delta.text_or_empty("content");
        self.content.append(piece.as_str());
        let thought = delta.text_or_empty("reasoning_content");
        self.reasoning.append(thought.as_str());
        if thought.as_str().is_empty() {
            LineEffect::Nothing
        } else {
            LineEffect::Shown(thought)
        }
    }

    /// The completion, once the stream has ended.
    pub fn finish(self) -> (r: Completion)
        ensures
            r.content == self.content,
            r.reasoning == self.reasoning,
            call_views(r.tool_calls@) == complete_calls(self.acc@),
    {
        Completion {
            content: self.content,
            reasoning: self.reasoning,
            tool_calls: self.acc.finish(),
        }
    }
}

/// What a line did besides adding to what has arrived.
enum LineEffect {
    Nothing,
    Shown(String),
    Failed(String),
}

/// Progress with other pieces of reasoning to be shown.
closed spec fn with_shown(p: Progress, shown: Seq<Seq<char>>) -> Progress {
    Progress { shown, ..p }
}

/// The progress that an effect amounts to, given what has arrived.
closed spec fn effect_progress(p: Progress, shown: Seq<Seq<char>>, e: LineEffect) -> Progress {
    match e {
        LineEffect::Nothing => Progress { shown, ..p },
        LineEffect::Shown(s) => Progress { shown: shown.push(s@), ..p },
        LineEffect::Failed(s) => Progress { shown, error: Some(s@), ..p },
    }
}

fn first_delta(event: &Json) -> (r: Option<&Json>)
    ensures
        match r {
            Some(d) => delta_of(event@) == Some(d@),
            None => delta_of(event@) is None,
        },
{
    match event.array_at("choices") {
        Some(choices) => if choices.len() > 0 {
            choices[0].get("delta")
        } else {
            None
        },
        None => None,
    }
}

/// A fragment goes to the call that its index names and to no other: that call takes
/// over the id and the name that it carries, and its piece of the arguments behind
/// those that are there; the other calls stay as they are, and those that are missing
/// in front of it are blank.
pub proof fn law_a_fragment_goes_to_its_call(calls: Seq<PartialView>, call: JsonView, i: int)
    requires
        i == (if call.get("index"@) is Some && call.get("index"@)->0 is Unsigned {
            call.get("index"@)->0->Unsigned_0 as usize
        } else {
            0
        }),
    ensures
        ({
            let after = add_fragment(calls, call);
            let before = if i < calls.len() {
                calls[i]
            } else {
                PartialView { id: Seq::empty(), name: Seq::empty(), arguments: None }
            };
            &&& after.len() == (if calls.len() > i {
                calls.len()
            } else {
                (i + 1) as nat
            })
            &&& forall|k: int|
                0 <= k < calls.len() && k != i ==> #[trigger] after[k] == calls[k]
            &&& forall|k: int|
                calls.len() <= k < i ==> (#[trigger] after[k]).id.len() == 0
                    && after[k].name.len() == 0 && after[k].arguments is None
            &&& call.text_at("id"@) is Some ==> after[i].id == call.text_at("id"@)->0
            &&& call.text_at("id"@) is None ==> after[i].id == before.id
            &&& match call.get("function"@) {
                Some(f) => {
                    &&& f.text_at("name"@) is Some ==> after[i].name == f.text_at("name"@)->0
                    &&& f.text_at("name"@) is None ==> after[i].name == before.name
                    &&& match f.text_at("arguments"@) {
                        Some(piece) => match before.arguments {
                            Some(s) => after[i].arguments == Some(s + piece),
                            None => after[i].arguments == Some(piece),
                        },
                        None => after[i].arguments == before.arguments,
                    }
                },
                None => after[i].name == before.name && after[i].arguments == before.arguments,
            }
        }),
{
}

/// Fragments are taken in one after the other, none left out: those of two lists
/// together are those of the first and then those of the second. A delta without
/// calls changes nothing.
pub proof fn law_fragments_are_taken_in_order(
    calls: Seq<PartialView>,
    a: Seq<JsonView>,
    b: Seq<JsonView>,
    one: JsonView,
)
    ensures
        add_fragments(calls, a + b) == add_fragments(add_fragments(calls, a), b),
        add_fragments(calls, seq![one]) == add_fragment(calls, one),
        one.array_at("tool_calls"@) is None ==> add_delta(calls, one) == calls,
        one.array_at("tool_calls"@) is Some ==> add_delta(calls, one) == add_fragments(
            calls,
            one.array_at("tool_calls"@)->0,
        ),
    decreases b.len(),
{
    let single = seq![one];
    assert(single.drop_last() =~= Seq::<JsonView>::empty());
    assert(add_fragments(calls, single.drop_last()) == calls);
    assert(single.last() == one);
    if b.len() == 0 {
        assert(a + b =~= a);
    } else {
        law_fragments_are_taken_in_order(calls, a, b.drop_last(), one);
        assert((a + b).drop_last() =~= a + b.drop_last());
        assert((a + b).last() == b.last());
    }
}

/// Every call that has an id and a name is run, in order: `at` are the positions of
/// these calls. Its arguments are the JSON that its text is, the text itself where
/// that is none, and null where none arrived.
pub proof fn law_every_whole_call_is_run(calls: Seq<PartialView>) -> (at: Seq<int>)
    ensures
        complete_calls(calls).len() == at.len(),
        forall|i: int|
            0 <= i < at.len() ==> 0 <= #[trigger] at[i] < calls.len() && complete_calls(calls)[i].id
                == calls[at[i]].id && complete_calls(calls)[i].name == calls[at[i]].name && match (
            calls[at[i]].arguments) {
                Some(s) => complete_calls(calls)[i].arguments == (if json_of(s) is Some {
                    json_of(s)->0
                } else {
                    JsonView::Text(s)
                }),
                None => complete_calls(calls)[i].arguments == JsonView::Null,
            } && calls[at[i]].id.len() > 0 && calls[at[i]].name.len() > 0,
        forall|i: int, j: int| 0 <= i < j < at.len() ==> #[trigger] at[i] < #[trigger] at[j],
        forall|k: int|
            0 <= k < calls.len() && calls[k].id.len() > 0 && calls[k].name.len() > 0
                ==> #[trigger] at.contains(k),
    decreases calls.len(),
{
    let complete = |c: PartialView| is_complete(c);
    let read = |c: PartialView| arrived(c);
    let all = complete_calls(calls);
    if calls.len() == 0 {
        reveal(Seq::filter);
        Seq::empty()
    } else {
        let prev = calls.drop_last();
        let last = calls.last();
        let before = law_every_whole_call_is_run(prev);
        let rest = complete_calls(prev);
        prev.lemma_filter_push(last, complete);
        assert(prev.push(last) =~= calls);
        let n = calls.len() - 1;
        let at = if is_complete(last) {
            before.push(n)
        } else {
            before
        };
        if is_complete(last) {
            assert(all =~= rest.push(arrived(last)));
        } else {
            assert(all =~= rest);
        }
        assert forall|i: int| 0 <= i < at.len() implies 0 <= #[trigger] at[i] < calls.len()
            && all[i].id == calls[at[i]].id && all[i].name == calls[at[i]].name && match (
        calls[at[i]].arguments) {
            Some(s) => all[i].arguments == (if json_of(s) is Some {
                json_of(s)->0
            } else {
                JsonView::Text(s)
            }),
            None => all[i].arguments == JsonView::Null,
        } && calls[at[i]].id.len() > 0 && calls[at[i]].name.len() > 0 by {
            if i < before.len() {
                assert(at[i] == before[i]);
                assert(all[i] == rest[i]);
                assert(prev[before[i]] == calls[before[i]]);
            }
        }
        assert forall|i: int, j: int| 0 <= i < j < at.len() implies #[trigger] at[i]
            < #[trigger] at[j] by {
            assert(at[i] == before[i]);
            if j < before.len() {
                assert(at[j] == before[j]);
            }
        }
        assert forall|k: int|
            0 <= k < calls.len() && calls[k].id.len() > 0 && calls[k].name.len()
                > 0 implies #[trigger] at.contains(k) by {
            if k < n {
                assert(prev[k] == calls[k]);
                assert(before.contains(k));
                let i = choose|i: int| 0 <= i < before.len() && before[i] == k;
                assert(at[i] == k);
            } else {
                assert(at[before.len() as int] == k);
            }
        }
        at
    }
}

/// An event adds what the delta of its first choice carries: the text behind the
/// text, the reasoning behind the reasoning, which is also shown unless it is empty,
/// and the fragments of calls. An error is told by its message and changes nothing
/// else, and an event with neither changes nothing.
pub proof fn law_an_event_adds_what_it_carries(p: Progress, event: JsonView)
    ensures
        ({
            let after = after_event(p, event);
            &&& event.get("error"@) is Some ==> {
                &&& after == Progress { error: after.error, ..p }
                &&& after.error == Some(
                    match event.get("error"@)->0.text_at("message"@) {
                        Some(s) => s,
                        None => "unknown error"@,
                    },
                )
            }
            &&& event.get("error"@) is None ==> after.error == p.error && match event.array_at(
                "choices"@,
            ) {
                Some(choices) => if choices.len() > 0 && choices[0].get("delta"@) is Some {
                    let delta = choices[0].get("delta"@)->0;
                    let thought = delta.text_or_empty("reasoning_content"@);
                    &&& after.content == p.content + delta.text_or_empty("content"@)
                    &&& after.reasoning == p.reasoning + thought
                    &&& thought.len() > 0 ==> after.shown == p.shown.push(thought)
                    &&& thought.len() == 0 ==> after.shown == p.shown
                    &&& after.calls == add_delta(p.calls, delta)
                } else {
                    after == p
                },
                None => after == p,
            }
        }),
{
}

/// Only the events of `data:` lines count: a line with one that is JSON counts as
/// that event, and the end marker, other lines and what is not JSON change nothing.
pub proof fn law_only_events_count(p: Progress, line: Seq<char>)
    ensures
        sse_payload(line) is None ==> after_line(p, line) == p,
        sse_payload(line) is Some ==> {
            let data = sse_payload(line)->0;
            &&& data == "[DONE]"@ ==> after_line(p, line) == p
            &&& data != "[DONE]"@ && json_of(data) is None ==> after_line(p, line) == p
            &&& data != "[DONE]"@ && json_of(data) is Some ==> after_line(p, line) == after_event(
                p,
                json_of(data)->0,
            )
        },
{
}

/// Every line is read, in order, until an error: the lines of two lists are those of
/// the first and then those of the second, unless the first ended in an error, behind
/// which nothing is read.
pub proof fn law_every_line_is_read_in_order(
    p: Progress,
    a: Seq<Seq<char>>,
    line: Seq<char>,
    b: Seq<Seq<char>>,
)
    ensures
        after_lines(p, a).error is Some ==> after_lines(p, a + b) == after_lines(p, a),
        after_lines(p, a).error is None ==> after_lines(p, a + b) == after_lines(
            after_lines(p, a),
            b,
        ),
        p.error is None ==> after_lines(p, seq![line]) == after_line(p, line),
{
    lemma_after_lines_append(p, a, b);
    let single = seq![line];
    assert(single.drop_last() =~= Seq::<Seq<char>>::empty());
    assert(after_lines(p, single.drop_last()) == p);
    assert(single.last() == line);
}

} // verus!
