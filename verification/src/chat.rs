//! Chat completions: the messages of a conversation, the calls a model makes,
//! the stream its answer arrives in, and the loop that answers its calls.

use crate::json::{
    array, json_views, law_a_member_is_found_by_its_key, members, object, render, rendered, text,
    Json, JsonView,
};
use crate::text::{trim, trimmed};
use vstd::prelude::*;

verus! {

/// The view of an optional text.
pub open spec fn opt_text(o: Option<String>) -> Option<Seq<char>> {
    match o {
        Some(s) => Some(s@),
        None => None,
    }
}

/// One tool call requested by the model.
#[derive(Debug)]
pub struct ToolCall {
    pub id: String,
    pub name: String,
    pub arguments: Json,
}

/// What a [`ToolCall`] stands for.
pub struct CallView {
    pub id: Seq<char>,
    pub name: Seq<char>,
    pub arguments: JsonView,
}

impl View for ToolCall {
    type V = CallView;

    open spec fn view(&self) -> CallView {
        CallView { id: self.id@, name: self.name@, arguments: self.arguments@ }
    }
}

impl Clone for ToolCall {
    fn clone(&self) -> (r: Self)
        ensures
            r@ == self@,
    {
        ToolCall {
            id: self.id.clone(),
            name: self.name.clone(),
            arguments: self.arguments.clone(),
        }
    }
}

/// The views of a sequence of calls.
pub open spec fn call_views(calls: Seq<ToolCall>) -> Seq<CallView> {
    Seq::new(calls.len(), |i: int| calls[i]@)
}

/// Copies calls.
pub fn copy_calls(calls: &Vec<ToolCall>) -> (r: Vec<ToolCall>)
    ensures
        call_views(r@) == call_views(calls@),
{
    let mut out: Vec<ToolCall> = Vec::new();
    let mut i: usize = 0;
    while i < calls.len()
        invariant
            i <= calls@.len(),
            out@.len() == i,
            forall|k: int| 0 <= k < i ==> (#[trigger] out@[k])@ == calls@[k]@,
        decreases calls@.len() - i,
    {
        out.push(calls[i].clone());
        i += 1;
    }
    assert(call_views(out@) =~= call_views(calls@));
    out
}

/// The arguments of a call as one text: a string stands for itself, anything
/// else is written as JSON.
pub open spec fn arguments_text(v: JsonView) -> Seq<char> {
    match v {
        JsonView::Text(s) => s,
        _ => rendered(v),
    }
}

/// A call in the shape of an assistant message:
/// `{"id","type","function":{"name","arguments"}}`.
pub open spec fn call_json(c: CallView) -> JsonView {
    JsonView::Object(
        seq![
            ("id"@, JsonView::Text(c.id)),
            ("type"@, JsonView::Text("function"@)),
            (
                "function"@,
                JsonView::Object(
                    seq![
                        ("name"@, JsonView::Text(c.name)),
                        ("arguments"@, JsonView::Text(arguments_text(c.arguments))),
                    ],
                ),
            ),
        ],
    )
}

impl ToolCall {
    /// The arguments as one text, for handing the call back to the model.
    pub fn arguments_text(&self) -> (r: String)
        ensures
            r@ == arguments_text(self@.arguments),
    {
        match &self.arguments {
            Json::Text(s) => s.clone(),
            other => render(other),
        }
    }

    /// The call in OpenAI's assistant-message shape:
    /// `{"id","type","function":{"name","arguments"}}`.
    pub fn to_json(&self) -> (r: Json)
        ensures
            r@ == call_json(self@),
    {
        let mut function: Vec<(String, Json)> = Vec::new();
        function.push(("name".to_owned(), text(self.name.as_str())));
        function.push(("arguments".to_owned(), Json::Text(self.arguments_text())));
        let mut call: Vec<(String, Json)> = Vec::new();
        call.push(("id".to_owned(), text(self.id.as_str())));
        call.push(("type".to_owned(), text("function")));
        let ghost fun = members(function@);
        call.push(("function".to_owned(), object(function)));
        proof {
            let want = call_json(self@)->Object_0;
            assert(fun =~= want[2].1->Object_0);
            assert(members(call@) =~= want);
        }
        object(call)
    }
}

/// A single message in a chat completion conversation.
#[derive(Debug)]
pub struct Message {
    pub role: String,
    pub content: Option<String>,
    /// The model's chain of thought, echoed back to providers that accept it
    /// so a later turn can continue where the last one stopped.
    pub reasoning: Option<String>,
    /// Tool calls made by the assistant, in OpenAI's format.
    pub tool_calls: Option<Vec<ToolCall>>,
    /// The id of the tool call this message answers, for `role: "tool"`.
    pub tool_call_id: Option<String>,
}

/// What a [`Message`] stands for.
pub struct MessageView {
    pub role: Seq<char>,
    pub content: Option<Seq<char>>,
    pub reasoning: Option<Seq<char>>,
    pub tool_calls: Option<Seq<CallView>>,
    pub tool_call_id: Option<Seq<char>>,
}

impl View for Message {
    type V = MessageView;

    open spec fn view(&self) -> MessageView {
        MessageView {
            role: self.role@,
            content: opt_text(self.content),
            reasoning: opt_text(self.reasoning),
            tool_calls: match self.tool_calls {
                Some(calls) => Some(call_views(calls@)),
                None => None,
            },
            tool_call_id: opt_text(self.tool_call_id),
        }
    }
}

/// The views of a sequence of messages.
pub open spec fn message_views(m: Seq<Message>) -> Seq<MessageView> {
    Seq::new(m.len(), |i: int| m[i]@)
}

/// Adding a message adds its view.
pub proof fn lemma_message_views_push(m: Seq<Message>, x: Message)
    ensures
        message_views(m.push(x)) == message_views(m).push(x@),
{
    assert(message_views(m.push(x)) =~= message_views(m).push(x@));
}

/// A message that carries nothing but a text.
pub open spec fn text_message(role: Seq<char>, content: Seq<char>) -> MessageView {
    MessageView {
        role,
        content: Some(content),
        reasoning: None,
        tool_calls: None,
        tool_call_id: None,
    }
}

/// An assistant turn that carries calls and, unless it is empty, the reasoning
/// behind them.
pub open spec fn calls_message(calls: Seq<CallView>, reasoning: Seq<char>) -> MessageView {
    MessageView {
        role: "assistant"@,
        content: None,
        reasoning: if reasoning.len() == 0 {
            None
        } else {
            Some(reasoning)
        },
        tool_calls: Some(calls),
        tool_call_id: None,
    }
}

/// The result of one tool call.
pub open spec fn tool_message(call_id: Seq<char>, content: Seq<char>) -> MessageView {
    MessageView {
        role: "tool"@,
        content: Some(content),
        reasoning: None,
        tool_calls: None,
        tool_call_id: Some(call_id),
    }
}

fn copy_opt(o: &Option<String>) -> (r: Option<String>)
    ensures
        opt_text(r) == opt_text(*o),
{
    match o {
        Some(s) => Some(s.clone()),
        None => None,
    }
}

impl Clone for Message {
    fn clone(&self) -> (r: Self)
        ensures
            r@ == self@,
    {
        Message {
            role: self.role.clone(),
            content: copy_opt(&self.content),
            reasoning: copy_opt(&self.reasoning),
            tool_calls: match &self.tool_calls {
                Some(calls) => Some(copy_calls(calls)),
                None => None,
            },
            tool_call_id: copy_opt(&self.tool_call_id),
        }
    }
}

impl Message {
    pub fn system(content: String) -> (r: Self)
        ensures
            r@ == text_message("system"@, content@),
    {
        Message {
            role: "system".to_owned(),
            content: Some(content),
            reasoning: None,
            tool_calls: None,
            tool_call_id: None,
        }
    }

    pub fn user(content: String) -> (r: Self)
        ensures
            r@ == text_message("user"@, content@),
    {
        Message {
            role: "user".to_owned(),
            content: Some(content),
            reasoning: None,
            tool_calls: None,
            tool_call_id: None,
        }
    }

    pub fn assistant_text(content: String) -> (r: Self)
        ensures
            r@ == text_message("assistant"@, content@),
    {
        Message {
            role: "assistant".to_owned(),
            content: Some(content),
            reasoning: None,
            tool_calls: None,
            tool_call_id: None,
        }
    }

    /// An assistant turn that only carries tool calls, no text.
    pub fn assistant_tool_calls(calls: Vec<ToolCall>) -> (r: Self)
        ensures
            r@ == calls_message(call_views(calls@), Seq::empty()),
    {
        Message {
            role: "assistant".to_owned(),
            content: None,
            reasoning: None,
            tool_calls: Some(calls),
            tool_call_id: None,
        }
    }

    /// The result of running one tool call.
    pub fn tool(call_id: &str, content: String) -> (r: Self)
        ensures
            r@ == tool_message(call_id@, content@),
    {
        Message {
            role: "tool".to_owned(),
            content: Some(content),
            reasoning: None,
            tool_calls: None,
            tool_call_id: Some(call_id.to_owned()),
        }
    }
}

/// The JSON of the calls of a message.
pub open spec fn calls_json(calls: Seq<CallView>) -> JsonView {
    JsonView::Array(Seq::new(calls.len(), |i: int| call_json(calls[i])))
}

/// The JSON of an optional text: `null` without one.
pub open spec fn nullable(o: Option<Seq<char>>) -> JsonView {
    match o {
        Some(s) => JsonView::Text(s),
        None => JsonView::Null,
    }
}

/// A message as it is sent: its role and content always, the rest only when it
/// is there.
pub open spec fn message_json(m: MessageView) -> JsonView {
    let base = seq![("role"@, JsonView::Text(m.role)), ("content"@, nullable(m.content))];
    let reasoning = match m.reasoning {
        Some(s) => seq![("reasoning_content"@, JsonView::Text(s))],
        None => Seq::empty(),
    };
    let calls = match m.tool_calls {
        Some(c) => seq![("tool_calls"@, calls_json(c))],
        None => Seq::empty(),
    };
    let id = match m.tool_call_id {
        Some(s) => seq![("tool_call_id"@, JsonView::Text(s))],
        None => Seq::empty(),
    };
    JsonView::Object(base + reasoning + calls + id)
}

fn calls_to_json(calls: &Vec<ToolCall>) -> (r: Json)
    ensures
        r@ == calls_json(call_views(calls@)),
{
    let mut out: Vec<Json> = Vec::new();
    let mut i: usize = 0;
    while i < calls.len()
        invariant
            i <= calls@.len(),
            out@.len() == i,
            forall|k: int| 0 <= k < i ==> (#[trigger] out@[k])@ == call_json(calls@[k]@),
        decreases calls@.len() - i,
    {
        out.push(calls[i].to_json());
        i += 1;
    }
    assert(json_views(out@) =~= calls_json(call_views(calls@))->Array_0);
    array(out)
}

impl Message {
    /// The message as it is sent.
    pub fn to_json(&self) -> (r: Json)
        ensures
            r@ == message_json(self@),
    {
        let mut o: Vec<(String, Json)> = Vec::new();
        o.push(("role".to_owned(), text(self.role.as_str())));
        let content = match &self.content {
            Some(s) => text(s.as_str()),
            None => Json::Null,
        };
        o.push(("content".to_owned(), content));
        if let Some(s) = &self.reasoning {
            o.push(("reasoning_content".to_owned(), text(s.as_str())));
        }
        if let Some(calls) = &self.tool_calls {
            o.push(("tool_calls".to_owned(), calls_to_json(calls)));
        }
        if let Some(id) = &self.tool_call_id {
            o.push(("tool_call_id".to_owned(), text(id.as_str())));
        }
        assert(members(o@) =~= message_json(self@)->Object_0);
        object(o)
    }
}

/// The outcome of one completion request.
#[derive(Debug)]
pub struct Completion {
    pub content: String,
    pub reasoning: String,
    pub tool_calls: Vec<ToolCall>,
}

impl Default for Completion {
    fn default() -> (r: Self)
        ensures
            r.content@ == Seq::<char>::empty(),
            r.reasoning@ == Seq::<char>::empty(),
            r.tool_calls@ == Seq::<ToolCall>::empty(),
    {
        Completion { content: String::new(), reasoning: String::new(), tool_calls: Vec::new() }
    }
}

/// The address completions are requested from.
pub open spec fn completions_url(base: Seq<char>) -> Seq<char> {
    base + "/chat/completions"@
}

/// The address completions are requested from.
pub fn chat_url(base: &str) -> (r: String)
    ensures
        r@ == completions_url(base@),
{
    let mut out = base.to_owned();
    out.append("/chat/completions");
    out
}

/// The JSON of all messages.
pub open spec fn messages_json(m: Seq<MessageView>) -> JsonView {
    JsonView::Array(Seq::new(m.len(), |i: int| message_json(m[i])))
}

/// A completion request: streamed, at temperature zero, with the tools on offer
/// and the choice among them left to the model.
pub open spec fn request_json(
    model: Seq<char>,
    messages: Seq<MessageView>,
    tools: Option<JsonView>,
) -> JsonView {
    let base = seq![
        ("model"@, JsonView::Text(model)),
        ("messages"@, messages_json(messages)),
        ("stream"@, JsonView::Bool(true)),
        ("temperature"@, JsonView::Unsigned(0)),
    ];
    let offer = match tools {
        Some(t) => seq![("tools"@, t), ("tool_choice"@, JsonView::Text("auto"@))],
        None => Seq::empty(),
    };
    JsonView::Object(base + offer)
}

/// Builds the body of a completion request.
pub fn request_body(model: &str, messages: &Vec<Message>, tools: Option<&Json>) -> (r: Json)
    ensures
        r@ == request_json(
            model@,
            message_views(messages@),
            match tools {
                Some(t) => Some(t@),
                None => None,
            },
        ),
{
    let mut list: Vec<Json> = Vec::new();
    let mut i: usize = 0;
    while i < messages.len()
        invariant
            i <= messages@.len(),
            list@.len() == i,
            forall|k: int| 0 <= k < i ==> (#[trigger] list@[k])@ == message_json(messages@[k]@),
        decreases messages@.len() - i,
    {
        list.push(messages[i].to_json());
        i += 1;
    }
    assert(json_views(list@) =~= messages_json(message_views(messages@))->Array_0);
    let mut o: Vec<(String, Json)> = Vec::new();
    o.push(("model".to_owned(), text(model)));
    o.push(("messages".to_owned(), array(list)));
    o.push(("stream".to_owned(), Json::Bool(true)));
    o.push(("temperature".to_owned(), Json::Unsigned(0)));
    if let Some(t) = tools {
        o.push(("tools".to_owned(), t.clone()));
        o.push(("tool_choice".to_owned(), text("auto")));
    }
    proof {
        let offered = match tools {
            Some(t) => Some(t@),
            None => None,
        };
        assert(members(o@) =~= request_json(
            model@,
            message_views(messages@),
            offered,
        )->Object_0);
    }
    object(o)
}

/// A failure with the detail that came with it, if there is any.
pub open spec fn failure_text(failure: Seq<char>, body: Seq<char>) -> Seq<char> {
    if trimmed(body).len() == 0 {
        failure
    } else {
        failure + ": "@ + trimmed(body)
    }
}

/// Adds the body of an error response to the message about it.
///
/// Provider error bodies carry the actionable detail, so they are surfaced
/// rather than just the status line.
pub fn request_failure(failure: &str, body: &str) -> (r: String)
    ensures
        r@ == failure_text(failure@, body@),
{
    let body = trim(body);
    let mut out = failure.to_owned();
    if !body.is_empty() {
        out.append(": ");
        out.append(body);
    }
    out
}

/// What is reported to the model for a call that failed.
pub open spec fn outcome_text(outcome: Option<Seq<char>>) -> Seq<char> {
    match outcome {
        Some(s) => s,
        None => "error: tool failed"@,
    }
}

/// A conversation in progress: the messages so far and the calls of the last
/// turn that have not been answered yet.
pub struct Dialogue {
    pub messages: Vec<Message>,
    pub pending: Vec<ToolCall>,
}

/// What a [`Dialogue`] stands for.
pub struct DialogueView {
    pub messages: Seq<MessageView>,
    pub pending: Seq<CallView>,
}

impl View for Dialogue {
    type V = DialogueView;

    open spec fn view(&self) -> DialogueView {
        DialogueView {
            messages: message_views(self.messages@),
            pending: call_views(self.pending@),
        }
    }
}

impl DialogueView {
    /// The dialogue after the model has made calls.
    pub open spec fn called(self, calls: Seq<CallView>, reasoning: Seq<char>) -> DialogueView {
        DialogueView {
            messages: self.messages.push(calls_message(calls, reasoning)),
            pending: calls,
        }
    }

    /// The dialogue after the next call has been answered.
    pub open spec fn answered(self, outcome: Option<Seq<char>>) -> DialogueView {
        DialogueView {
            messages: self.messages.push(tool_message(self.pending[0].id, outcome_text(outcome))),
            pending: self.pending.skip(1),
        }
    }

    /// The dialogue after the model has answered with plain text.
    pub open spec fn replied(self, content: Seq<char>) -> DialogueView {
        DialogueView {
            messages: self.messages.push(text_message("assistant"@, content)),
            ..self
        }
    }

    /// The dialogue after several calls have been answered, one after the other.
    pub open spec fn answered_all(self, outcomes: Seq<Option<Seq<char>>>) -> DialogueView
        decreases outcomes.len(),
    {
        if outcomes.len() == 0 {
            self
        } else {
            self.answered_all(outcomes.drop_last()).answered(outcomes.last())
        }
    }

    /// The dialogue after a round of calls, each of them answered.
    pub open spec fn after_round(self, round: Round) -> DialogueView {
        self.called(round.calls, round.reasoning).answered_all(round.outcomes)
    }

    /// The dialogue after several rounds.
    pub open spec fn after_rounds(self, rounds: Seq<Round>) -> DialogueView
        decreases rounds.len(),
    {
        if rounds.len() == 0 {
            self
        } else {
            self.after_rounds(rounds.drop_last()).after_round(rounds.last())
        }
    }
}

/// A turn of the model that makes calls, and what came of each of them.
pub struct Round {
    pub calls: Seq<CallView>,
    pub reasoning: Seq<char>,
    pub outcomes: Seq<Option<Seq<char>>>,
}

impl Dialogue {
    /// A conversation that starts from the given messages.
    pub fn new(messages: Vec<Message>) -> (r: Self)
        ensures
            r@.messages == message_views(messages@),
            r@.pending == Seq::<CallView>::empty(),
    {
        let r = Dialogue { messages, pending: Vec::new() };
        assert(r@.pending =~= Seq::<CallView>::empty());
        r
    }

    /// Takes in the model's turn.
    ///
    /// The turn is recorded, so that a follow up keeps its context. One without
    /// calls ends the conversation with its text; otherwise its calls wait to be
    /// answered in order.
    pub fn reply(&mut self, completion: Completion) -> (r: Option<String>)
        ensures
            completion.tool_calls@.len() == 0 ==> r == Some(completion.content) && final(self)@
                == old(self)@.replied(completion.content@),
            completion.tool_calls@.len() > 0 ==> r is None && final(self)@ == old(self)@.called(
                call_views(completion.tool_calls@),
                completion.reasoning@,
            ),
    {
        if completion.tool_calls.len() == 0 {
            let turn = Message::assistant_text(completion.content.clone());
            proof {
                lemma_message_views_push(self.messages@, turn);
            }
            self.messages.push(turn);
            return Some(completion.content);
        }
        let mut turn = Message::assistant_tool_calls(copy_calls(&completion.tool_calls));
        if !completion.reasoning.as_str().is_empty() {
            turn.reasoning = Some(completion.reasoning);
        }
        proof {
            lemma_message_views_push(self.messages@, turn);
        }
        self.messages.push(turn);
        self.pending = completion.tool_calls;
        None
    }

    /// The next call to run.
    pub fn next_call(&self) -> (r: Option<&ToolCall>)
        ensures
            match r {
                Some(c) => self@.pending.len() > 0 && c@ == self@.pending[0],
                None => self@.pending.len() == 0,
            },
    {
        if self.pending.len() == 0 {
            None
        } else {
            Some(&self.pending[0])
        }
    }

    /// Answers the next call, with the text it produced or nothing if it failed.
    pub fn answer(&mut self, outcome: Option<String>)
        requires
            old(self)@.pending.len() > 0,
        ensures
            final(self)@ == old(self)@.answered(opt_text(outcome)),
    {
        let ghost before = *self;
        let call = self.pending.remove(0);
        let content = match outcome {
            Some(s) => s,
            None => "error: tool failed".to_owned(),
        };
        let m = Message::tool(call.id.as_str(), content);
        proof {
            lemma_message_views_push(self.messages@, m);
            assert(call_views(self.pending@) =~= before@.pending.skip(1));
        }
        self.messages.push(m);
    }
}

/// Every call of a turn is answered once, in the order it was made, right
/// behind the turn: after as many answers as there were calls none is left, and
/// the messages are the old ones, the turn, and one result for each call.
pub proof fn law_each_call_is_answered_once(
    d: DialogueView,
    calls: Seq<CallView>,
    reasoning: Seq<char>,
    outcomes: Seq<Option<Seq<char>>>,
)
    requires
        outcomes.len() <= calls.len(),
    ensures
        ({
            let e = d.called(calls, reasoning).answered_all(outcomes);
            &&& e.pending == calls.skip(outcomes.len() as int)
            &&& e.messages == d.messages.push(calls_message(calls, reasoning)) + Seq::new(
                outcomes.len(),
                |i: int| tool_message(calls[i].id, outcome_text(outcomes[i])),
            )
        }),
    decreases outcomes.len(),
{
    let start = d.called(calls, reasoning);
    let e = start.answered_all(outcomes);
    if outcomes.len() == 0 {
        assert(calls.skip(0) =~= calls);
        assert(e.messages =~= d.messages.push(calls_message(calls, reasoning)) + Seq::new(
            outcomes.len(),
            |i: int| tool_message(calls[i].id, outcome_text(outcomes[i])),
        ));
    } else {
        let p = outcomes.drop_last();
        law_each_call_is_answered_once(d, calls, reasoning, p);
        let before = start.answered_all(p);
        assert(before.pending[0] == calls[p.len() as int]);
        assert(calls.skip(p.len() as int).skip(1) =~= calls.skip(outcomes.len() as int));
        assert(e.messages =~= d.messages.push(calls_message(calls, reasoning)) + Seq::new(
            outcomes.len(),
            |i: int| tool_message(calls[i].id, outcome_text(outcomes[i])),
        ));
    }
}

proof fn lemma_answers_append(d: DialogueView, outcomes: Seq<Option<Seq<char>>>)
    ensures
        d.messages.is_prefix_of(d.answered_all(outcomes).messages),
    decreases outcomes.len(),
{
    if outcomes.len() > 0 {
        let before = d.answered_all(outcomes.drop_last());
        lemma_answers_append(d, outcomes.drop_last());
        assert(before.messages.is_prefix_of(before.answered(outcomes.last()).messages));
    }
}

proof fn lemma_rounds_append(d: DialogueView, rounds: Seq<Round>)
    ensures
        d.messages.is_prefix_of(d.after_rounds(rounds).messages),
    decreases rounds.len(),
{
    if rounds.len() > 0 {
        let before = d.after_rounds(rounds.drop_last());
        let round = rounds.last();
        lemma_rounds_append(d, rounds.drop_last());
        assert(before.messages.is_prefix_of(
            before.called(round.calls, round.reasoning).messages,
        ));
        lemma_answers_append(before.called(round.calls, round.reasoning), round.outcomes);
    }
}

/// The conversation is appended to the messages it started from: whatever rounds
/// of calls there are, they stay in front, and the reply that ends it stands
/// last.
pub proof fn law_the_conversation_is_appended(
    d: DialogueView,
    rounds: Seq<Round>,
    reply: Seq<char>,
)
    ensures
        d.messages.is_prefix_of(d.after_rounds(rounds).replied(reply).messages),
        d.after_rounds(rounds).replied(reply).messages.last() == text_message(
            "assistant"@,
            reply,
        ),
        d.after_rounds(rounds).replied(reply).messages.len() > d.messages.len(),
        rounds.len() == 0 ==> d.after_rounds(rounds).replied(reply).messages == d.messages.push(
            text_message("assistant"@, reply),
        ),
{
    lemma_rounds_append(d, rounds);
    let before = d.after_rounds(rounds).messages;
    assert(before.is_prefix_of(before.push(text_message("assistant"@, reply))));
}

/// A call is handed back to the model as it was made: its id, the function it
/// names, and its arguments as one text, a text as it is and anything else as JSON.
pub proof fn law_a_call_is_sent_whole(c: CallView)
    ensures
        call_json(c).text_at("id"@) == Some(c.id),
        call_json(c).text_at("type"@) == Some("function"@),
        call_json(c).get("function"@) is Some,
        call_json(c).get("function"@)->0.text_at("name"@) == Some(c.name),
        call_json(c).get("function"@)->0.text_at("arguments"@) == Some(
            match c.arguments {
                JsonView::Text(s) => s,
                _ => rendered(c.arguments),
            },
        ),
{
    reveal_strlit("id");
    reveal_strlit("type");
    reveal_strlit("function");
    reveal_strlit("name");
    reveal_strlit("arguments");
    assert("id"@.len() == 2 && "type"@.len() == 4 && "function"@.len() == 8);
    assert("name"@.len() == 4 && "arguments"@.len() == 9);
    let call = call_json(c)->Object_0;
    let function = call[2].1->Object_0;
    law_a_member_is_found_by_its_key(call, "id"@, 0);
    law_a_member_is_found_by_its_key(call, "type"@, 1);
    law_a_member_is_found_by_its_key(call, "function"@, 2);
    law_a_member_is_found_by_its_key(function, "name"@, 0);
    law_a_member_is_found_by_its_key(function, "arguments"@, 1);
}

/// A message is sent whole: its role, its content, which is null where there is
/// none, and its reasoning, all of its calls in order, and the call it answers, each
/// of these when it is there and not at all otherwise.
pub proof fn law_a_message_is_sent_whole(m: MessageView)
    ensures
        ({
            let sent = message_json(m);
            &&& sent.text_at("role"@) == Some(m.role)
            &&& sent.text_at("content"@) == m.content
            &&& m.content is None ==> sent.get("content"@) == Some(JsonView::Null)
            &&& sent.text_at("reasoning_content"@) == m.reasoning
            &&& m.reasoning is None ==> sent.get("reasoning_content"@) is None
            &&& sent.text_at("tool_call_id"@) == m.tool_call_id
            &&& m.tool_call_id is None ==> sent.get("tool_call_id"@) is None
            &&& m.tool_calls is None ==> sent.get("tool_calls"@) is None
            &&& m.tool_calls is Some ==> sent.array_at("tool_calls"@) is Some && {
                let calls = sent.array_at("tool_calls"@)->0;
                &&& calls.len() == m.tool_calls->0.len()
                &&& forall|i: int|
                    0 <= i < calls.len() ==> #[trigger] calls[i] == call_json(m.tool_calls->0[i])
            }
        }),
{
    reveal_strlit("role");
    reveal_strlit("content");
    reveal_strlit("reasoning_content");
    reveal_strlit("tool_calls");
    reveal_strlit("tool_call_id");
    assert("role"@.len() == 4 && "content"@.len() == 7 && "reasoning_content"@.len() == 17);
    assert("tool_calls"@.len() == 10 && "tool_call_id"@.len() == 12);
    let o = message_json(m)->Object_0;
    let r: int = if m.reasoning is Some {
        1
    } else {
        0
    };
    let c: int = if m.tool_calls is Some {
        1
    } else {
        0
    };
    let t: int = if m.tool_call_id is Some {
        1
    } else {
        0
    };
    assert(o.len() == 2 + r + c + t);
    law_a_member_is_found_by_its_key(o, "role"@, 0);
    law_a_member_is_found_by_its_key(o, "content"@, 1);
    law_a_member_is_found_by_its_key(
        o,
        "reasoning_content"@,
        if r == 1 {
            2
        } else {
            o.len() as int
        },
    );
    law_a_member_is_found_by_its_key(
        o,
        "tool_calls"@,
        if c == 1 {
            2 + r
        } else {
            o.len() as int
        },
    );
    law_a_member_is_found_by_its_key(
        o,
        "tool_call_id"@,
        if t == 1 {
            2 + r + c
        } else {
            o.len() as int
        },
    );
}

/// A request carries the model, every message in order, and the tools on offer, with
/// the choice left to the model; it asks for a stream, at temperature zero.
pub proof fn law_a_request_carries_the_conversation(
    model: Seq<char>,
    messages: Seq<MessageView>,
    tools: Option<JsonView>,
)
    ensures
        ({
            let sent = request_json(model, messages, tools);
            &&& sent.text_at("model"@) == Some(model)
            &&& sent.array_at("messages"@) is Some
            &&& sent.array_at("messages"@)->0.len() == messages.len()
            &&& forall|i: int|
                0 <= i < messages.len() ==> sent.array_at("messages"@)->0[i] == message_json(
                    #[trigger] messages[i],
                )
            &&& sent.get("stream"@) == Some(JsonView::Bool(true))
            &&& sent.get("temperature"@) == Some(JsonView::Unsigned(0))
            &&& sent.get("tools"@) == tools
            &&& sent.text_at("tool_choice"@) == (if tools is Some {
                Some("auto"@)
            } else {
                None
            })
        }),
{
    reveal_strlit("model");
    reveal_strlit("messages");
    reveal_strlit("stream");
    reveal_strlit("temperature");
    reveal_strlit("tools");
    reveal_strlit("tool_choice");
    assert("model"@.len() == 5 && "messages"@.len() == 8 && "stream"@.len() == 6);
    assert("temperature"@.len() == 11 && "tools"@.len() == 5 && "tool_choice"@.len() == 11);
    assert("model"@[0] == 'm' && "tools"@[0] == 't');
    assert("temperature"@[1] == 'e' && "tool_choice"@[1] == 'o');
    let o = request_json(model, messages, tools)->Object_0;
    assert(o.len() == (if tools is Some {
        6int
    } else {
        4int
    }));
    law_a_member_is_found_by_its_key(o, "model"@, 0);
    law_a_member_is_found_by_its_key(o, "messages"@, 1);
    law_a_member_is_found_by_its_key(o, "stream"@, 2);
    law_a_member_is_found_by_its_key(o, "temperature"@, 3);
    law_a_member_is_found_by_its_key(o, "tools"@, 4);
    law_a_member_is_found_by_its_key(
        o,
        "tool_choice"@,
        if tools is Some {
            5
        } else {
            4
        },
    );
}

/// A turn of the model is recorded with all its calls and, unless it is empty, its
/// reasoning; a result with the call that it answers, and what came of it, which is
/// an error where the tool failed; and a text under the role of who said it.
pub proof fn law_turns_are_recorded(
    role: Seq<char>,
    content: Seq<char>,
    calls: Seq<CallView>,
    outcome: Option<Seq<char>>,
)
    ensures
        text_message(role, content).role == role,
        text_message(role, content).content == Some(content),
        text_message(role, content).tool_calls is None,
        text_message(role, content).tool_call_id is None,
        calls_message(calls, content).role == "assistant"@,
        calls_message(calls, content).tool_calls == Some(calls),
        calls_message(calls, content).content is None,
        content.len() > 0 ==> calls_message(calls, content).reasoning == Some(content),
        content.len() == 0 ==> calls_message(calls, content).reasoning is None,
        tool_message(role, content).role == "tool"@,
        tool_message(role, content).tool_call_id == Some(role),
        tool_message(role, content).content == Some(content),
        outcome is Some ==> outcome_text(outcome) == outcome->0,
        outcome is None ==> outcome_text(outcome) == "error: tool failed"@,
{
}

/// The next answer goes to the call that was made first of those that wait, and
/// leaves the others waiting in order; a turn with calls makes all of them wait.
pub proof fn law_calls_wait_in_order(
    d: DialogueView,
    calls: Seq<CallView>,
    reasoning: Seq<char>,
    outcome: Option<Seq<char>>,
    reply: Seq<char>,
)
    requires
        calls.len() > 0,
    ensures
        d.called(calls, reasoning).pending == calls,
        d.called(calls, reasoning).messages == d.messages.push(calls_message(calls, reasoning)),
        d.called(calls, reasoning).answered(outcome).messages.last().tool_call_id == Some(
            calls[0].id,
        ),
        d.called(calls, reasoning).answered(outcome).pending.len() == calls.len() - 1,
        forall|i: int|
            0 <= i < calls.len() - 1 ==> d.called(calls, reasoning).answered(outcome).pending[i]
                == #[trigger] calls[i + 1],
        d.replied(reply).messages == d.messages.push(text_message("assistant"@, reply)),
        d.replied(reply).pending == d.pending,
{
}

/// What a provider says of a failure is shown behind it, without the blanks around
/// it; where it says nothing the failure stands alone.
pub proof fn law_the_detail_of_a_failure_is_shown(failure: Seq<char>, body: Seq<char>)
    ensures
        trimmed(body).len() == 0 ==> failure_text(failure, body) == failure,
        trimmed(body).len() > 0 ==> failure_text(failure, body) == failure + seq![':', ' ']
            + trimmed(body),
{
    reveal_strlit(": ");
    assert(": "@ =~= seq![':', ' ']);
}

/// Completions are requested below the address that is configured, whatever that is.
pub proof fn law_completions_are_requested_below_the_base(base: Seq<char>)
    ensures
        completions_url(base) == base + "/chat/completions"@,
{
}

} // verus!
