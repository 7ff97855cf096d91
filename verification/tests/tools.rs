use pwa::html::{parse_bing, parse_ddg, text_from_html};
use pwa::json::{object, parse, text, Json};
use pwa::style::{TextColor, TextStyle};
use pwa::tools::{
    declined_reply, interrupts, pressed_key, stage_line, tool_request, tool_words, yes_no_key,
    Choice, Key, SchemaWords, Stage, ToolColors, ToolExecutor, ToolLabels, ToolMode, ToolRequest,
};
use pwa::web::{
    bing_url, ddg_url, fetch_reply, fetch_url, hits_reply, packages_reply, search_query,
    tavily_body, tavily_reply, urlencode, web_reply, AurHit, RepoHit, MAX_FETCH,
};

fn args(key: &str, value: Json) -> Json {
    object(vec![(key.to_string(), value)])
}

fn labels() -> ToolLabels {
    ToolLabels {
        searching_packages: "Searching for packages".to_string(),
        searched_packages: "Searched for packages".to_string(),
        searching_web: "Searching the web".to_string(),
        searched_web: "Web Searched".to_string(),
        fetching: "Fetching".to_string(),
        fetched: "Fetched".to_string(),
    }
}

#[test]
fn modes_cycle_and_have_names() {
    let mut mode = ToolMode::default();
    assert_eq!(mode.label(), "fetch-confirm");
    mode.cycle();
    assert_eq!(mode.label(), "all-confirm");
    mode.cycle();
    assert_eq!(mode.label(), "auto");
    mode.cycle();
    assert_eq!(mode, ToolMode::FetchConfirm);
}

#[test]
fn the_mode_decides_what_is_confirmed() {
    let mut executor = ToolExecutor::new(false);
    assert!(executor.needs_confirm("web_fetch"));
    assert!(!executor.needs_confirm("web_search"));
    executor.mode = ToolMode::AllConfirm;
    assert!(executor.needs_confirm("web_search"));
    executor.mode = ToolMode::Auto;
    assert!(!executor.needs_confirm("web_fetch"));

    let mut quiet = ToolExecutor::new(true);
    assert_eq!(quiet.mode, ToolMode::Auto);
    quiet.mode = ToolMode::AllConfirm;
    assert_eq!(quiet.start("web_fetch"), Stage::Running);
}

#[test]
fn a_tool_runs_only_after_a_yes() {
    let mut executor = ToolExecutor::new(false);
    let stage = executor.start("web_fetch");
    assert_eq!(stage, Stage::Confirming);
    assert_eq!(executor.answer(stage, true), Stage::Running);
    assert_eq!(executor.answer(stage, false), Stage::Declined);
    assert_eq!(executor.start("search_packages"), Stage::Running);

    executor.mode = ToolMode::AllConfirm;
    let stage = executor.start("search_packages");
    let stage = executor.answer(stage, false);
    assert_eq!(stage, Stage::Switching);
    assert_eq!(executor.answer(stage, false), Stage::Declined);
    assert_eq!(executor.mode, ToolMode::AllConfirm);
    assert_eq!(executor.answer(stage, true), Stage::Running);
    assert_eq!(executor.mode, ToolMode::Auto);
    assert_eq!(executor.start("web_fetch"), Stage::Running);
}

#[test]
fn tab_chooses_the_mode() {
    let mut executor = ToolExecutor::new(false);
    assert_eq!(executor.choose_mode(true), Choice::Chosen(ToolMode::FetchConfirm));
    assert_eq!(executor.choose_mode(false), Choice::Ask);
    assert_eq!(executor.choose_key(Some(Key::Tab)), Choice::Ask);
    assert_eq!(executor.choose_key(None), Choice::Chosen(ToolMode::AllConfirm));
    assert_eq!(executor.choose_key(Some(Key::Enter)), Choice::Chosen(ToolMode::AllConfirm));
    assert_eq!(executor.choose_key(Some(Key::Esc)), Choice::Interrupted);
    assert_eq!(ToolExecutor::new(true).choose_mode(false), Choice::Chosen(ToolMode::Auto));
}

#[test]
fn keys_are_told_apart() {
    assert_eq!(pressed_key(Key::Char('i'), true), Key::Tab);
    assert_eq!(pressed_key(Key::Char('i'), false), Key::Char('i'));
    assert_eq!(pressed_key(Key::Tab, false), Key::Tab);
    assert!(interrupts(Some(Key::Esc)));
    assert!(!interrupts(Some(Key::Enter)));
    assert!(!interrupts(None));
    assert_eq!(yes_no_key(Key::Char('Y')), Some(true));
    assert_eq!(yes_no_key(Key::Enter), Some(true));
    assert_eq!(yes_no_key(Key::Char('n')), Some(false));
    assert_eq!(yes_no_key(Key::Esc), Some(false));
    assert_eq!(yes_no_key(Key::Tab), None);
}

#[test]
fn calls_are_worded_by_tool() {
    let words = tool_words(&labels(), "web_search", &args("query", text("mpv")));
    assert_eq!(words.present, "Searching the web");
    assert_eq!(words.past, "Web Searched");
    assert_eq!(words.keyword, "mpv");
    let words = tool_words(&labels(), "web_fetch", &args("url", text("https://e")));
    assert_eq!(words.present, "Fetching");
    assert_eq!(words.keyword, "https://e");
    // A query that is no text hides the url.
    let both = object(vec![
        ("query".to_string(), Json::Unsigned(1)),
        ("url".to_string(), text("u")),
    ]);
    assert_eq!(tool_words(&labels(), "search_packages", &both).keyword, "");
    assert_eq!(tool_words(&labels(), "other", &both).past, "other");
}

#[test]
fn tool_lines_follow_the_stage() {
    let plain = TextStyle { color: TextColor::Plain, bold: false };
    let colors = ToolColors {
        action: TextStyle { color: TextColor::Blue, bold: true },
        bold: TextStyle { color: TextColor::Plain, bold: true },
        code: TextStyle { color: TextColor::Cyan, bold: false },
    };
    let words = tool_words(&labels(), "web_search", &args("query", text("mpv")));
    assert_eq!(
        stage_line(&colors, &words, Stage::Confirming, "? [Y/n]"),
        "\x1b[1;34m##\x1b[0m \x1b[1mSearching the web\x1b[0m \x1b[36m\"mpv\"\x1b[0m \x1b[1m? [Y/n]\x1b[0m"
    );
    let colors = ToolColors { action: plain, bold: plain, code: plain };
    assert_eq!(stage_line(&colors, &words, Stage::Running, "?"), "## Searching the web \"mpv\"");
    assert_eq!(stage_line(&colors, &words, Stage::Finished, "?"), "## Web Searched \"mpv\"");
    assert_eq!(stage_line(&colors, &words, Stage::Declined, "?"), "## Web Searched \"mpv\"");
    assert_eq!(
        stage_line(&colors, &words, Stage::Switching, "?"),
        "## Searching the web \"mpv\" ?"
    );
    let words = tool_words(&labels(), "web_search", &Json::Null);
    assert_eq!(stage_line(&colors, &words, Stage::Running, "?"), "## Searching the web");
}

#[test]
fn calls_are_read_by_name() {
    assert!(matches!(
        tool_request("search_packages", &args("query", text("a"))),
        ToolRequest::SearchPackages(q) if q == "a"
    ));
    assert!(matches!(
        tool_request("web_search", &Json::Null),
        ToolRequest::WebSearch(q) if q.is_empty()
    ));
    assert!(matches!(
        tool_request("web_fetch", &args("url", text("u"))),
        ToolRequest::WebFetch(u) if u == "u"
    ));
    assert!(matches!(tool_request("rm", &Json::Null), ToolRequest::Unavailable));
}

#[test]
fn every_tool_is_declared() {
    let words = SchemaWords {
        search_packages: "p".to_string(),
        search_term: "t".to_string(),
        web_search: "w".to_string(),
        search_query: "q".to_string(),
        web_fetch: "f".to_string(),
        fetch_url: "u".to_string(),
    };
    let schema = ToolExecutor::schema(&words);
    let tools = schema.as_array().unwrap();
    assert_eq!(tools.len(), 3);
    for (tool, (name, about, argument, hint)) in tools.iter().zip([
        ("search_packages", "p", "query", "t"),
        ("web_search", "w", "query", "q"),
        ("web_fetch", "f", "url", "u"),
    ]) {
        assert_eq!(tool.text_at("type"), Some("function"));
        let function = tool.get("function").unwrap();
        assert_eq!(function.text_at("name"), Some(name));
        assert_eq!(function.text_at("description"), Some(about));
        let parameters = function.get("parameters").unwrap();
        assert_eq!(parameters.text_at("type"), Some("object"));
        let property = parameters.get("properties").unwrap().get(argument).unwrap();
        assert_eq!(property.text_at("type"), Some("string"));
        assert_eq!(property.text_at("description"), Some(hint));
        assert_eq!(parameters.get("required"), Some(&Json::Array(vec![text(argument)])));
        assert!(!matches!(tool_request(name, &Json::Null), ToolRequest::Unavailable));
    }
    assert_eq!(declined_reply("no"), "{\"message\":\"no\",\"status\":\"declined\"}");
}

#[test]
fn urls_are_encoded() {
    assert_eq!(urlencode("aZ0-_.~"), "aZ0-_.~");
    assert_eq!(urlencode("a b&c"), "a%20b%26c");
    assert_eq!(urlencode("é你"), "%C3%A9%E4%BD%A0");
    assert_eq!(ddg_url("a b"), "https://html.duckduckgo.com/html/?q=a%20b");
    assert_eq!(bing_url("a b"), "https://cn.bing.com/search?q=a%20b");
    assert_eq!(search_query(" x "), Some("x"));
    assert_eq!(search_query(" \n"), None);
    assert_eq!(fetch_url(" https://e "), Some("https://e"));
    assert_eq!(fetch_url("http://e"), Some("http://e"));
    assert_eq!(fetch_url("ftp://e"), None);
    assert_eq!(fetch_url("file https://e"), None);
}

#[test]
fn pages_are_read_from_their_main_part() {
    let html = "<html><head><title> A <b>t</b> </title></head><body>outside<main><p> one </p>\n<p>two</p></main></body></html>";
    assert_eq!(text_from_html(html, 1000), "title: A <b>t</b>\none\ntwo");
    // Without a main part the article is read, and without one the body.
    assert_eq!(text_from_html("<body><p>x</p><p> </p><p>y</p></body>", 1000), "x\ny");
    assert_eq!(text_from_html("<body>z<article>in</article></body>", 1000), "in");
    // A title does not hide the text, nor does an empty main part.
    assert_eq!(
        text_from_html("<title>T</title><body><p>hi</p></body>", 100),
        "title: T\nhi"
    );
    assert_eq!(
        text_from_html("<title>T</title><main> </main><article>a</article>", 100),
        "title: T\na"
    );
    assert_eq!(text_from_html("<title>T</title>", 100), "title: T");
    assert_eq!(text_from_html("", 1000), "");
    // The limit is in characters, however many bytes they have.
    assert_eq!(text_from_html("<body>abcdef</body>", 3), "abc");
    assert_eq!(text_from_html("<body>ab你好</body>", 3), "ab你");
    assert_eq!(text_from_html("<body>你好</body>", 3), "你好");
    assert_eq!(text_from_html("<body><p>ab</p><p>cd</p><p>ef</p></body>", 5), "ab\ncd");
}

#[test]
fn fetched_pages_are_told_to_the_model() {
    assert_eq!(
        fetch_reply("https://e", "<body>hi</body>", "none"),
        "{\"content\":\"hi\",\"url\":\"https://e\"}"
    );
    assert_eq!(
        fetch_reply("https://e", "<body> </body>", "none"),
        "{\"message\":\"none\",\"status\":\"empty\"}"
    );
    let content = |page: &str| {
        let reply = fetch_reply("u", page, "none");
        parse(&reply).unwrap().text_at("content").unwrap().to_string()
    };
    let long = format!("<body>{}</body>", "a".repeat(MAX_FETCH + 5));
    assert_eq!(content(&long).len(), MAX_FETCH);
    let wide = format!("<body>{}</body>", "é".repeat(MAX_FETCH + 5));
    assert_eq!(content(&wide), "é".repeat(MAX_FETCH));
}

const DDG: &str = "<div class=\"result\"><a class=\"result__a\" href=\"https://b\"> Beta </a><a class=\"result__snippet\">about <b>b</b></a></div>\
<div class=\"result\"><a class=\"result__a\" href=\"https://a\">Alpha</a></div>\
<div class=\"result\"><a class=\"result__a\">no url</a></div>\
<div class=\"result\"><a class=\"result__snippet\">no link</a></div>";

const BING: &str = "<ol><li class=\"b_algo\"><h2><a href=\"https://a2\">Alpha</a></h2><p>second</p></li>\
<li class=\"b_algo\"><h2><a href=\"https://c\">Gamma</a></h2></li></ol>";

#[test]
fn hits_are_read_from_result_pages() {
    let hit = |t: &str, r: &str| (t.to_string(), r.to_string());
    assert_eq!(
        parse_ddg(DDG, 5),
        vec![hit("Beta", "https://b\nabout b"), hit("Alpha", "https://a")]
    );
    assert_eq!(parse_ddg(DDG, 1), vec![hit("Beta", "https://b\nabout b")]);
    assert_eq!(
        parse_bing(BING, 5),
        vec![hit("Alpha", "https://a2\nsecond"), hit("Gamma", "https://c")]
    );
    assert!(parse_bing(DDG, 5).is_empty());
    assert!(parse_ddg("", 5).is_empty());
}

#[test]
fn hits_are_merged_by_title() {
    // The first hit of a title stays, and titles come in order.
    assert_eq!(
        web_reply(Some(DDG), Some(BING), "none"),
        "- Alpha\n  https://a\n- Beta\n  https://b\nabout b\n- Gamma\n  https://c"
    );
    assert_eq!(
        web_reply(None, Some(BING), "none"),
        "- Alpha\n  https://a2\nsecond\n- Gamma\n  https://c"
    );
    assert_eq!(
        web_reply(None, None, "none"),
        "{\"message\":\"none\",\"status\":\"no results\"}"
    );
    let many = (0..12).map(|i| (format!("t{:02}", 11 - i), "r".to_string())).collect();
    let reply = hits_reply(many, "none");
    assert_eq!(reply.lines().count(), 20);
    assert!(reply.starts_with("- t00\n  r\n"));
    assert!(reply.ends_with("- t09\n  r"));
}

#[test]
fn tavily_is_asked_and_told() {
    let body = tavily_body("SECRET", "q");
    assert_eq!(body.text_at("api_key"), Some("SECRET"));
    assert_eq!(body.text_at("query"), Some("q"));
    assert_eq!(body.text_at("search_depth"), Some("basic"));
    assert_eq!(body.get("max_results"), Some(&Json::Unsigned(6)));
    assert_eq!(body.get("include_answer"), Some(&Json::Bool(true)));

    let reply = parse("{\"answer\": \"42\", \"results\": [{\"title\": \"t\", \"url\": \"u\", \"content\": \"c\"}, {}]}").unwrap();
    assert_eq!(tavily_reply(&reply, "none"), "Answer: 42\n\n- t\n  u\n  c\n- \n  \n  ".trim());
    let reply = parse("{\"answer\": \"42\", \"results\": []}").unwrap();
    assert_eq!(
        tavily_reply(&reply, "none"),
        "{\"message\":\"none\",\"status\":\"no results\"}"
    );
    assert_eq!(tavily_reply(&parse("{\"answer\": \"42\"}").unwrap(), "none"), "Answer: 42");
    assert_eq!(tavily_reply(&parse("{\"answer\": \"\"}").unwrap(), "none"), "");
    let seven = format!("{{\"results\": [{}]}}", vec!["{\"title\": \"t\"}"; 7].join(","));
    assert_eq!(tavily_reply(&parse(&seven).unwrap(), "none").matches("- t").count(), 6);
}

#[test]
fn found_packages_are_numbered_through() {
    let repo = vec![RepoHit {
        repo: "extra".to_string(),
        name: "mpv".to_string(),
        version: "0.40-1".to_string(),
        desc: "a player".to_string(),
    }];
    let aur = vec![AurHit {
        name: "mpv-git".to_string(),
        version: "r1-1".to_string(),
        desc: "a player, newer".to_string(),
        votes: 12,
        popularity: "0.50".to_string(),
    }];
    assert_eq!(
        packages_reply(&repo, &aur, "none"),
        "1. extra/mpv 0.40-1  a player\n2. aur/mpv-git r1-1  a player, newer votes=12 popularity=0.50"
    );
    assert_eq!(
        packages_reply(&Vec::new(), &Vec::new(), "none"),
        "{\"message\":\"none\",\"status\":\"no results\"}"
    );
}

#[test]
fn the_first_link_and_the_first_snippet_of_a_result_count() {
    let html = "<div class=\"result\"><a class=\"result__a\" href=\"https://a\">A</a>\
        <a class=\"result__a\" href=\"https://b\">B</a>\
        <a class=\"result__snippet\">one</a><a class=\"result__snippet\">two</a></div>\
        <div class=\"result\"><a class=\"result__a\">no url</a></div>";
    assert_eq!(parse_ddg(html, 5), vec![("A".to_string(), "https://a\none".to_string())]);
}

#[test]
fn tabs_choose_the_mode_and_the_next_key_decides() {
    let prompt = |keys: &[Option<Key>]| {
        let mut executor = ToolExecutor::new(false);
        let mut choice = executor.choose_mode(false);
        let mut shown = Vec::new();
        for key in keys {
            if choice != Choice::Ask {
                break;
            }
            shown.push(executor.mode);
            choice = executor.choose_key(*key);
        }
        (choice, shown)
    };
    let (fetch, all, auto) = (ToolMode::FetchConfirm, ToolMode::AllConfirm, ToolMode::Auto);
    let tab = Some(Key::Tab);
    assert_eq!(prompt(&[None, tab]), (Choice::Chosen(fetch), vec![fetch]));
    assert_eq!(prompt(&[tab, tab, None]), (Choice::Chosen(auto), vec![fetch, all, auto]));
    assert_eq!(
        prompt(&[tab, tab, tab, Some(Key::Enter), tab]),
        (Choice::Chosen(fetch), vec![fetch, all, auto, fetch])
    );
    assert_eq!(prompt(&[tab, Some(Key::Esc)]), (Choice::Interrupted, vec![fetch, all]));
}
