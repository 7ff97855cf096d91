use pwa::chat::{
    chat_url, request_body, request_failure, Completion, Dialogue, Message, ToolCall,
};
use pwa::json::{array, object, parse, render, text, Json};
use pwa::live_view::LiveView;
use pwa::reply::{
    discover_messages, extract_json, review_messages, select_messages, selection_json,
    strip_fence, update_risk_messages, Discovery, Finding, Level, ReplyError, Review, Risk,
    Selection, UpdateRisk, Verdict, DISCOVER_SYSTEM, REVIEW_SYSTEM, SELECT_SYSTEM,
    UPDATE_RISK_SYSTEM,
};
use pwa::sse::{sse_data, SseBuffer};
use pwa::stream::{CompletionStream, ToolCallAccumulator};
use pwa::width::{tail_chars, wrap_text};
use unicode_width::UnicodeWidthStr;

fn obj(members: Vec<(&str, Json)>) -> Json {
    object(members.into_iter().map(|(k, v)| (k.to_string(), v)).collect())
}

#[test]
fn cjk_reasoning_wraps_to_the_viewport_width() {
    // No spaces to break on, and every character is two columns wide.
    let text = "选一号因为它带有并且开箱即用满足最小需求";
    let lines = wrap_text(text, 10);

    assert!(lines.len() > 1);
    for line in &lines {
        assert!(UnicodeWidthStr::width(line.as_str()) <= 10);
    }
    // Nothing is dropped or duplicated while wrapping.
    assert_eq!(lines.concat(), text);
}

#[test]
fn reasoning_deltas_are_appended_verbatim() {
    // Providers split words across deltas; inserting anything between them
    // would corrupt text that has no spaces.
    let mut view = LiveView::new(Some(80), false).unwrap();
    for delta in ["选一", "号因为", "它带"] {
        view.append_reasoning(delta);
    }
    assert_eq!(view.reasoning, "选一号因为它带");
}

#[test]
fn wrapping_still_prefers_spaces() {
    let lines = wrap_text("the quick brown fox", 10);
    assert_eq!(lines, vec!["the quick".to_string(), "brown fox".to_string()]);
}

#[test]
fn long_cjk_reason_wraps_within_the_terminal() {
    // The width print_reason passes: terminal columns minus its four space
    // indent. Every produced line has to fit, including continuations.
    let text = "请求“哪个好用”过于模糊，未指定要安装浏览器、扩展还是其他工具，无法从列表中挑选。";
    let width = 80 - 4;

    let lines = wrap_text(text, width);

    assert!(lines.len() > 1, "text should need more than one line");
    for line in &lines {
        assert!(UnicodeWidthStr::width(line.as_str()) <= width);
    }
    assert_eq!(lines.concat(), text);
}

#[test]
fn selection_is_echoed_back_as_json() {
    let selection = Selection {
        indices: vec![1, 3],
        reason: "两个都要".to_string(),
    };

    let json = selection_json(&selection);
    let value = parse(&json).unwrap();

    assert_eq!(
        value.get("indices"),
        Some(&Json::Array(vec![Json::Unsigned(1), Json::Unsigned(3)]))
    );
    assert_eq!(value.get("reason"), Some(&Json::Text("两个都要".to_string())));
}

#[test]
fn sse_lines_split_across_chunk_boundaries() {
    let mut buf = SseBuffer::default();

    buf.push(b"data: {\"a\":1}\ndata: {\"b\"");
    let lines = buf.lines();
    assert_eq!(lines, vec!["data: {\"a\":1}".to_string()]);

    buf.push(b":2}\n\n");
    let lines = buf.lines();
    assert_eq!(lines, vec!["data: {\"b\":2}".to_string(), String::new()]);
}

#[test]
fn sse_lines_handle_crlf_and_split_utf8() {
    let mut buf = SseBuffer::default();
    let text = "data: \u{4f60}\u{597d}\r\n".as_bytes();

    // Split mid multi byte character.
    buf.push(&text[..7]);
    assert!(buf.lines().is_empty());

    buf.push(&text[7..]);
    assert_eq!(buf.lines(), vec!["data: \u{4f60}\u{597d}".to_string()]);
}

#[test]
fn sse_data_ignores_comments_and_blanks() {
    assert_eq!(sse_data("data: hi"), Some("hi"));
    assert_eq!(sse_data("data:hi"), Some("hi"));
    assert_eq!(sse_data(": ping"), None);
    assert_eq!(sse_data(""), None);
    assert_eq!(sse_data("event: message"), None);
}

#[test]
fn json_extraction_is_lenient() {
    let plain = extract_json(r#"{"verdict":"safe"}"#).unwrap();
    assert_eq!(plain.text_at("verdict"), Some("safe"));

    let fenced = extract_json("```json\n{\"verdict\":\"safe\"}\n```").unwrap();
    assert_eq!(fenced.text_at("verdict"), Some("safe"));

    let prose = extract_json("Sure!\n{\"verdict\":\"safe\"}\nHope that helps").unwrap();
    assert_eq!(prose.text_at("verdict"), Some("safe"));

    assert!(extract_json("no json here").is_err());
}

#[test]
fn verdict_only_defaults_to_yes_when_clean() {
    assert!(Verdict::Safe.default_accept());
    assert!(!Verdict::Suspicious.default_accept());
    assert!(!Verdict::Malicious.default_accept());
    assert!(!Verdict::Unknown.default_accept());

    // An unrecognised verdict must not read as safe.
    assert_eq!(Verdict::parse("totally fine"), Verdict::Unknown);
    assert_eq!(Verdict::parse("SAFE"), Verdict::Safe);
}

#[test]
fn review_parses_a_full_response() {
    let value = obj(vec![
        ("summary", text("Builds from source.")),
        (
            "findings",
            array(vec![
                obj(vec![("severity", text("high")), ("message", text("uses http"))]),
                obj(vec![("severity", text("low")), ("message", text(""))]),
            ]),
        ),
        ("verdict", text("suspicious")),
        ("patch", text("# PKGBUILD\n")),
    ]);

    let review = Review::from_json(&value);
    assert_eq!(review.summary, "Builds from source.");
    assert_eq!(review.verdict, Verdict::Suspicious);
    assert_eq!(review.patch.as_deref(), Some("# PKGBUILD"));
    // The empty message is dropped.
    assert_eq!(review.findings.len(), 1);
}

#[test]
fn review_tolerates_a_missing_verdict() {
    let review = Review::from_json(&obj(vec![("summary", text("hi"))]));
    assert_eq!(review.verdict, Verdict::Unknown);
    assert!(!review.verdict.default_accept());
    assert!(review.patch.is_none());
}

#[test]
fn tool_call_serializes_in_openai_shape() {
    let call = ToolCall {
        id: "call_1".to_string(),
        name: "web_search".to_string(),
        arguments: obj(vec![("query", text("tor browser"))]),
    };
    let value = call.to_json();
    assert_eq!(value.text_at("id"), Some("call_1"));
    assert_eq!(value.text_at("type"), Some("function"));
    let function = value.get("function").unwrap();
    assert_eq!(function.text_at("name"), Some("web_search"));
    assert_eq!(function.text_at("arguments"), Some("{\"query\":\"tor browser\"}"));
}

fn fragment(index: u64, id: Option<&str>, name: Option<&str>, arguments: &str) -> Json {
    let mut call = vec![("index", Json::Unsigned(index))];
    if let Some(id) = id {
        call.push(("id", text(id)));
    }
    let mut function = Vec::new();
    if let Some(name) = name {
        function.push(("name", text(name)));
    }
    function.push(("arguments", text(arguments)));
    call.push(("function", obj(function)));
    obj(call)
}

fn delta(calls: Vec<Json>) -> Json {
    obj(vec![("tool_calls", array(calls))])
}

#[test]
fn accumulator_reassembles_streamed_fragments() {
    let mut acc = ToolCallAccumulator::default();
    acc.push(&delta(vec![fragment(
        0,
        Some("call_a"),
        Some("web_search"),
        "{\"query\":\"tor",
    )]));
    acc.push(&delta(vec![fragment(0, None, None, " browser\"}")]));
    acc.push(&delta(vec![fragment(
        1,
        Some("call_b"),
        Some("web_fetch"),
        "{\"url\":\"https://e\"}",
    )]));
    let calls = acc.finish();
    assert_eq!(calls.len(), 2);
    assert_eq!(calls[0].id, "call_a");
    assert_eq!(calls[0].name, "web_search");
    assert_eq!(calls[0].arguments, obj(vec![("query", text("tor browser"))]));
    assert_eq!(calls[1].id, "call_b");
    assert_eq!(calls[1].name, "web_fetch");
}

#[test]
fn accumulator_drops_incomplete_calls() {
    let mut acc = ToolCallAccumulator::default();
    acc.push(&delta(vec![
        fragment(0, Some("call_a"), Some("web_search"), "{\"query\":\"x\"}"),
        fragment(1, None, None, "{\"query\":\"y\"}"),
    ]));
    let calls = acc.finish();
    assert_eq!(calls.len(), 1);
    assert_eq!(calls[0].id, "call_a");
}

#[test]
fn update_risk_parses_verdict_and_findings() {
    let value = obj(vec![
        ("risk", text("high")),
        ("summary", text("systemd upgrade touches core boot paths")),
        (
            "findings",
            array(vec![
                obj(vec![
                    ("severity", text("critical")),
                    ("message", text("config file format changed")),
                ]),
                obj(vec![("severity", text("warning")), ("message", text("  "))]),
                obj(vec![("message", text("network-manager package dropped"))]),
            ]),
        ),
    ]);
    let risk = UpdateRisk::from_json(&value);
    assert_eq!(risk.risk, Risk::High);
    assert_eq!(risk.findings.len(), 2);
    assert_eq!(risk.findings[0].severity, "critical");
    assert_eq!(risk.findings[1].severity, "warning");
}

#[test]
fn update_risk_parses_unknown_without_verdict() {
    let risk = UpdateRisk::from_json(&obj(Vec::new()));
    assert_eq!(risk.risk, Risk::Unknown);
    assert!(risk.findings.is_empty());
}

#[test]
fn risk_parse_is_case_insensitive_and_lenient() {
    assert_eq!(Risk::parse("SAFE"), Risk::Safe);
    assert_eq!(Risk::parse("  Caution "), Risk::Caution);
    assert_eq!(Risk::parse("High"), Risk::High);
    assert_eq!(Risk::parse("whatever"), Risk::Unknown);
}

#[test]
fn wrapping_keeps_a_word_that_is_too_long_for_a_line() {
    assert_eq!(wrap_text("ab abcdefghijkl", 5), vec!["ab", "abcde", "fghij", "kl"]);
    assert_eq!(wrap_text("", 5), vec![""]);
    // A wide character in a line of one column stands alone.
    assert_eq!(wrap_text("你好", 1), vec!["你", "好"]);
    // A control character takes no columns.
    assert_eq!(wrap_text("a\u{7}b", 2), vec!["a\u{7}b"]);
}

#[test]
fn tail_counts_characters() {
    assert_eq!(tail_chars("选一号", 2), "一号");
    assert_eq!(tail_chars("ab", 5), "ab");
    assert_eq!(tail_chars("ab", 0), "");
}

#[test]
fn fences_are_stripped() {
    assert_eq!(strip_fence("```json\n{}\n```"), "{}");
    assert_eq!(strip_fence("```\nno end"), "no end");
    assert_eq!(strip_fence("```one line"), "```one line");
    assert_eq!(strip_fence("  plain "), "plain");
    assert_eq!(strip_fence("```md\na\n```b```\nc\n```"), "a\n```b```\nc");
}

#[test]
fn extraction_takes_the_outermost_braces() {
    let value = extract_json("see {\"a\": {\"b\": 1}} there").unwrap();
    assert_eq!(value.get("a").unwrap().get("b").unwrap().as_unsigned(), Some(1));
    assert_eq!(extract_json("} and {").unwrap_err(), ReplyError::Unparseable);
    assert_eq!(extract_json(" [1] ").unwrap(), Json::Array(vec![Json::Unsigned(1)]));
}

#[test]
fn a_reply_without_json_is_a_summary() {
    let review = Review::from_reply("looks fine".to_string()).unwrap();
    assert_eq!(review.summary, "looks fine");
    assert_eq!(review.verdict, Verdict::Unknown);
    assert!(Review::from_reply(" \n".to_string()).is_err());

    let safe = Review::from_reply("{\"verdict\": \" Safe \"}".to_string()).unwrap();
    assert!(safe.verdict.default_accept());

    let risk = UpdateRisk::from_reply("hm".to_string()).unwrap();
    assert_eq!(risk.summary, "hm");
    assert_eq!(risk.risk, Risk::Unknown);
    assert!(UpdateRisk::from_reply(String::new()).is_err());
}

#[test]
fn severities_are_announced_by_level() {
    let level = |severity: &str| {
        Finding { severity: severity.to_string(), message: "m".to_string() }.level()
    };
    assert_eq!(level("CRITICAL"), Level::Error);
    assert_eq!(level("high"), Level::Error);
    assert_eq!(level("error"), Level::Error);
    assert_eq!(level("Low"), Level::Note);
    assert_eq!(level("info"), Level::Note);
    assert_eq!(level("note"), Level::Note);
    assert_eq!(level("medium"), Level::Warning);
    assert_eq!(Verdict::Safe.level(), Level::Note);
    assert_eq!(Verdict::Malicious.level(), Level::Error);
    assert_eq!(Verdict::Unknown.level(), Level::Warning);
    assert_eq!(Risk::Safe.level(), Level::Note);
    assert_eq!(Risk::High.level(), Level::Error);
    assert_eq!(Risk::Caution.level(), Level::Warning);
}

#[test]
fn selections_keep_only_numbers_on_the_list() {
    let reply = "{\"indices\": [3, 1, 3, 0, 9, -1, \"2\", 2.5], \"reason\": \"r\"}";
    let selection = Selection::from_reply(reply, 4).unwrap();
    assert_eq!(selection.indices, vec![1, 3]);
    assert_eq!(selection.reason, "r");

    // What is echoed reads back as it was made.
    let again = Selection::from_reply(&selection_json(&selection), 4).unwrap();
    assert_eq!(again.indices, selection.indices);
    assert_eq!(again.reason, selection.reason);

    let none = Selection::from_reply("{}", 4).unwrap();
    assert!(none.indices.is_empty());
    assert_eq!(none.reason, "");
    assert!(Selection::from_reply("nothing fits", 4).is_err());
    assert!(Selection::default().indices.is_empty());
}

#[test]
fn discoveries_skip_packages_without_a_name() {
    let reply = "{\"packages\": [{\"name\": \"mpv\", \"reason\": \"player\"}, {\"name\": \" \"}, {\"reason\": \"x\"}], \"explanation\": \"two\"}";
    let discovery = Discovery::from_reply(reply.to_string());
    assert_eq!(discovery.candidates.len(), 1);
    assert_eq!(discovery.candidates[0].name, "mpv");
    assert_eq!(discovery.candidates[0].reason, "player");
    assert_eq!(discovery.message, "two");

    let chat = Discovery::from_reply("hello there".to_string());
    assert!(chat.candidates.is_empty());
    assert_eq!(chat.message, "hello there");
}

#[test]
fn questions_carry_their_instructions_and_history() {
    let history = vec![
        Message::user("first".to_string()),
        Message::assistant_text("answer".to_string()),
    ];
    let asked = select_messages("1. core/a 1", "small", 7, &history);
    assert_eq!(asked.len(), 4);
    assert_eq!(asked[0].role, "system");
    assert_eq!(asked[0].content.as_deref(), Some(SELECT_SYSTEM));
    assert_eq!(asked[1].content.as_deref(), Some("first"));
    assert_eq!(asked[2].role, "assistant");
    assert_eq!(
        asked[3].content.as_deref(),
        Some("Packages:\n1. core/a 1\n\nRequest: small\n\nValid numbers are 1 to 7.")
    );

    let found = discover_messages(history, "Request: a player".to_string());
    assert_eq!(found.len(), 4);
    assert_eq!(found[0].content.as_deref(), Some(DISCOVER_SYSTEM));
    assert_eq!(found[3].content.as_deref(), Some("Request: a player"));

    let review = review_messages("foo", "PKGBUILD:\nx");
    assert_eq!(review[0].content.as_deref(), Some(REVIEW_SYSTEM));
    assert_eq!(review[1].content.as_deref(), Some("Package: foo\n\nPKGBUILD:\nx"));

    let risk = update_risk_messages("a 1 -> 2", "none");
    assert_eq!(risk[0].content.as_deref(), Some(UPDATE_RISK_SYSTEM));
    assert_eq!(
        risk[1].content.as_deref(),
        Some("Upgrade list:\na 1 -> 2\n\nArch Linux news:\nnone\n\nAssess the risk of this upgrade.")
    );
}

#[test]
fn requests_have_the_shape_the_api_expects() {
    let messages = vec![Message::user("hi".to_string())];
    let body = request_body("m", &messages, None);
    assert_eq!(
        render(&body),
        "{\"messages\":[{\"content\":\"hi\",\"role\":\"user\"}],\"model\":\"m\",\"stream\":true,\"temperature\":0}"
    );
    let tools = array(Vec::new());
    let body = request_body("m", &messages, Some(&tools));
    assert_eq!(body.text_at("tool_choice"), Some("auto"));
    assert_eq!(body.get("tools"), Some(&Json::Array(Vec::new())));
    assert_eq!(chat_url("https://e/v1"), "https://e/v1/chat/completions");
    assert_eq!(request_failure("failed: 500", " \n"), "failed: 500");
    assert_eq!(request_failure("failed: 500", " busy\n"), "failed: 500: busy");
}

#[test]
fn a_text_argument_is_sent_as_it_is() {
    let call = ToolCall {
        id: "c".to_string(),
        name: "n".to_string(),
        arguments: Json::Text("not json".to_string()),
    };
    let value = call.to_json();
    assert_eq!(value.get("function").unwrap().text_at("arguments"), Some("not json"));
}

#[test]
fn json_keeps_what_it_holds() {
    let value = parse("{\"a\": [null, true, 1.5, -3, \"x\"], \"b\": {}}").unwrap();
    assert_eq!(render(&value), "{\"a\":[null,true,1.5,-3,\"x\"],\"b\":{}}");
    assert!(parse("{").is_none());
    assert_eq!(parse("7"), Some(Json::Unsigned(7)));
    let copy = value.clone();
    assert_eq!(copy, value);
}

fn event(json: &str) -> Vec<u8> {
    format!("data: {}\n\n", json).into_bytes()
}

#[test]
fn a_completion_does_not_depend_on_its_chunks() {
    let mut bytes = Vec::new();
    bytes.extend(b": keepalive\n\n".to_vec());
    bytes.extend(event("{\"choices\":[{\"delta\":{\"reasoning_content\":\"想\"}}]}"));
    bytes.extend(event("{\"choices\":[{\"delta\":{\"content\":\"你\"}}]}"));
    bytes.extend(event("{\"choices\":[{\"delta\":{\"content\":\"好\",\"tool_calls\":[{\"index\":0,\"id\":\"c\",\"function\":{\"name\":\"n\",\"arguments\":\"{}\"}}]}}]}"));
    bytes.extend(event("not json"));
    bytes.extend(event("[DONE]"));

    for size in [1usize, 2, 3, 7, 1000] {
        let mut stream = CompletionStream::new();
        let mut shown = String::new();
        for chunk in bytes.chunks(size) {
            stream.push(chunk);
            let drained = stream.drain();
            assert!(drained.error.is_none());
            shown.push_str(&drained.shown.concat());
        }
        let completion = stream.finish();
        assert_eq!(shown, "想");
        assert_eq!(completion.content, "你好");
        assert_eq!(completion.reasoning, "想");
        assert_eq!(completion.tool_calls.len(), 1);
        assert_eq!(completion.tool_calls[0].arguments, obj(Vec::new()));
    }
}

#[test]
fn an_error_event_stops_the_stream() {
    let mut stream = CompletionStream::new();
    stream.push(&event("{\"error\":{\"message\":\"quota\"}}"));
    assert_eq!(stream.drain().error.as_deref(), Some("quota"));

    let mut stream = CompletionStream::new();
    stream.push(&event("{\"error\":{}}"));
    assert_eq!(stream.drain().error.as_deref(), Some("unknown error"));
}

#[test]
fn invalid_utf8_in_a_line_is_replaced() {
    let mut buf = SseBuffer::default();
    buf.push(b"data: \xff\n");
    assert_eq!(buf.lines(), vec!["data: \u{fffd}".to_string()]);
}

#[test]
fn a_dialogue_answers_each_call_once() {
    let call = |id: &str| ToolCall {
        id: id.to_string(),
        name: "web_search".to_string(),
        arguments: obj(vec![("query", text("x"))]),
    };
    let mut dialogue = Dialogue::new(vec![Message::user("q".to_string())]);
    let done = dialogue.reply(Completion {
        content: String::new(),
        reasoning: "because".to_string(),
        tool_calls: vec![call("a"), call("b")],
    });
    assert!(done.is_none());
    assert_eq!(dialogue.next_call().unwrap().id, "a");
    dialogue.answer(Some("found".to_string()));
    assert_eq!(dialogue.next_call().unwrap().id, "b");
    dialogue.answer(None);
    assert!(dialogue.next_call().is_none());
    assert_eq!(dialogue.messages.len(), 4);
    assert_eq!(dialogue.messages[1].reasoning.as_deref(), Some("because"));
    assert_eq!(dialogue.messages[2].tool_call_id.as_deref(), Some("a"));
    assert_eq!(dialogue.messages[2].content.as_deref(), Some("found"));
    assert_eq!(dialogue.messages[3].tool_call_id.as_deref(), Some("b"));
    assert_eq!(dialogue.messages[3].content.as_deref(), Some("error: tool failed"));

    let done = dialogue.reply(Completion {
        content: "answer".to_string(),
        reasoning: String::new(),
        tool_calls: Vec::new(),
    });
    assert_eq!(done.as_deref(), Some("answer"));
    // The answer is kept too, so that a follow up has its context.
    assert_eq!(dialogue.messages.len(), 5);
    assert_eq!(dialogue.messages[4].role, "assistant");
    assert_eq!(dialogue.messages[4].content.as_deref(), Some("answer"));
    let next = discover_messages(dialogue.messages, "and now?".to_string());
    assert_eq!(next.len(), 7);
    assert_eq!(next[1].content.as_deref(), Some("q"));
    assert_eq!(next[5].content.as_deref(), Some("answer"));
    assert_eq!(next[6].content.as_deref(), Some("and now?"));
}

#[test]
fn arguments_are_read_as_a_whole() {
    let finished = |pieces: &[&str]| {
        let mut acc = ToolCallAccumulator::default();
        acc.push(&delta(vec![fragment(0, Some("a"), Some("f"), pieces[0])]));
        for piece in &pieces[1..] {
            acc.push(&delta(vec![fragment(0, None, None, piece)]));
        }
        let mut calls = acc.finish();
        assert_eq!(calls.len(), 1);
        render(&calls.remove(0).arguments)
    };
    assert_eq!(finished(&["{}", ""]), "{}");
    assert_eq!(finished(&["", "{}"]), "{}");
    assert_eq!(finished(&["1", "2"]), "12");
    assert_eq!(finished(&["{\"a\":", "1", "}"]), "{\"a\":1}");
    assert_eq!(finished(&["{}", "{}"]), "\"{}{}\"");
}

#[test]
fn prose_around_an_object_changes_nothing() {
    let object = "{\"a\": \"} {\"}";
    let value = render(&extract_json(object).unwrap());
    for reply in [
        format!("Sure, here: {} - done", object),
        format!("}} 1. [x] \"hm\" {} [y] {{", object),
        format!("```json\n{}\n```", object),
        format!(" \n{}\n ", object),
    ] {
        assert_eq!(render(&extract_json(&reply).unwrap()), value, "{}", reply);
    }
    assert!(extract_json("} no object, only prose").is_err());
}
