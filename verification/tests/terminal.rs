use pwa::editor::{LineEditor, Step};
use pwa::live_view::{interactive, LiveView};
use pwa::markdown::{body_lines, inline_markdown, reason_lines};
use pwa::style::{paint_bold, paint_fixed};
use pwa::text::{
    clip, contains, find, is_before, is_white_space, join, lines, number_text, parse_number, pieces,
    rfind, trim, words, Class,
};

/// Feeds bytes to a fresh editor. What it answers, or the text as it stands, and
/// the last thing it drew.
fn edit(bytes: &[u8]) -> (Option<String>, String, String) {
    let mut editor = LineEditor::new(":: ".to_string());
    let mut drawn = String::new();
    for &byte in bytes {
        match editor.step(byte) {
            Step::Wait => {}
            Step::Draw(s) => drawn = s,
            Step::Done(text) => return (Some(text), editor.text(), drawn),
        }
    }
    (None, editor.text(), drawn)
}

#[test]
fn entered_text_is_answered() {
    assert_eq!(edit(b"hello\n").0.as_deref(), Some("hello"));
    assert_eq!(edit(b"hello\r").0.as_deref(), Some("hello"));
    assert_eq!(edit("装一个 é 🎬\n".as_bytes()).0.as_deref(), Some("装一个 é 🎬"));
    assert_eq!(edit(b"\n").0.as_deref(), Some(""));
    // Without Enter the text stands.
    assert_eq!(edit(b"half"), (None, "half".to_string(), "\r:: half\x1b[K".to_string()));
}

#[test]
fn editing_keys_move_and_erase() {
    assert_eq!(edit(b"ab\x7f\n").0.as_deref(), Some("a"));
    assert_eq!(edit(b"ab\x08\n").0.as_deref(), Some("a"));
    // The prompt can not be eaten.
    assert_eq!(edit(b"\x7f\x7fa\n").0.as_deref(), Some("a"));
    assert_eq!(edit(b"ac\x1b[Db\n").0.as_deref(), Some("abc"));
    assert_eq!(edit(b"ab\x1b[D\x1b[Cc\n").0.as_deref(), Some("abc"));
    assert_eq!(edit(b"bc\x1b[Ha\n").0.as_deref(), Some("abc"));
    assert_eq!(edit(b"ab\x1b[H\x1b[Fc\n").0.as_deref(), Some("abc"));
    assert_eq!(edit(b"ab\x15c\n").0.as_deref(), Some("c"));
    assert_eq!(edit("你好\x1b[D\x7f\n".as_bytes()).0.as_deref(), Some("好"));
    // At the ends the arrows do nothing.
    assert_eq!(edit(b"\x1b[D\x1b[Ca\n").0.as_deref(), Some("a"));
    // Other sequences and control characters do nothing.
    assert_eq!(edit(b"a\x1b[Ab\x1bOC\x01c\n").0.as_deref(), Some("abc"));
}

#[test]
fn the_end_of_input_ends_an_empty_line() {
    assert_eq!(edit(b"\x04").0.as_deref(), Some(""));
    assert_eq!(edit(b"a\x04b\n").0.as_deref(), Some("ab"));
}

#[test]
fn bytes_that_are_no_text_are_dropped() {
    // Stray continuation, overlong encoding, a lead with a wrong continuation.
    assert_eq!(edit(b"a\x80b\n").0.as_deref(), Some("ab"));
    assert_eq!(edit(b"a\xc0\xafb\n").0.as_deref(), Some("ab"));
    assert_eq!(edit(b"a\xc3xb\n").0.as_deref(), Some("ab"));
    assert_eq!(edit(b"a\xffb\n").0.as_deref(), Some("ab"));
    // An incomplete character is no part of the text.
    assert_eq!(edit(b"a\xe4\xbd").1, "a");
}

#[test]
fn the_line_is_drawn_with_the_cursor_in_place() {
    assert_eq!(edit(b"a").2, "\r:: a\x1b[K");
    // Two wide characters behind the cursor take four columns.
    assert_eq!(edit("a你好\x1b[H\x1b[C".as_bytes()).2, "\r:: a你好\x1b[K\x1b[4D");
}

#[test]
fn spans_are_shown_inline() {
    assert_eq!(inline_markdown("plain"), "plain");
    assert_eq!(inline_markdown("a **b** c"), "a \x1b[1mb\x1b[0m c");
    assert_eq!(inline_markdown("a `b` c"), "a \x1b[38;5;244mb\x1b[0m c");
    assert_eq!(inline_markdown("**open `x`"), "**open \x1b[38;5;244mx\x1b[0m");
    assert_eq!(inline_markdown("one `tick"), "one `tick");
    assert_eq!(inline_markdown("2 * 3"), "2 * 3");
    assert_eq!(inline_markdown(""), "");
    // Whichever mark comes first is applied first.
    assert_eq!(
        inline_markdown("`x` **y**"),
        "\x1b[38;5;244mx\x1b[0m \x1b[1my\x1b[0m"
    );
    assert_eq!(
        inline_markdown("**y** `x`"),
        "\x1b[1my\x1b[0m \x1b[38;5;244mx\x1b[0m"
    );
    assert_eq!(inline_markdown("`a**b**`"), "\x1b[38;5;244ma**b**\x1b[0m");
    assert_eq!(inline_markdown("`tick **b**"), "`tick \x1b[1mb\x1b[0m");
    assert_eq!(paint_bold("x"), "\x1b[1mx\x1b[0m");
    assert_eq!(paint_fixed(7, "x"), "\x1b[38;5;7mx\x1b[0m");
}

#[test]
fn blocks_are_shown_by_kind() {
    let text = "# Title #\n\nsome  text\nhere\n\n- one\n- **two**\n\n```sh\nls -l\n\ncd\n```\n\n##\n";
    assert_eq!(
        body_lines(Some(80), text),
        vec![
            "    \x1b[1m## Title #\x1b[0m".to_string(),
            String::new(),
            "    some text here".to_string(),
            String::new(),
            "    - one".to_string(),
            "    - \x1b[1mtwo\x1b[0m".to_string(),
            String::new(),
            "    \x1b[38;5;244mls -l\x1b[0m".to_string(),
            "    \x1b[38;5;244m\x1b[0m".to_string(),
            "    \x1b[38;5;244mcd\x1b[0m".to_string(),
            String::new(),
        ]
    );
    assert!(body_lines(None, " \n ").is_empty());
}

#[test]
fn long_list_entries_hang_under_their_marker() {
    // A narrow terminal still has twenty columns.
    assert_eq!(
        body_lines(Some(5), "1. aaaa bbbb cccc dddd\nword\n   \n+ x"),
        vec![
            "    1. aaaa bbbb cccc".to_string(),
            "       dddd".to_string(),
            "    word".to_string(),
            String::new(),
            "    + x".to_string(),
            String::new(),
        ]
    );
}

#[test]
fn no_text_is_left_out_of_a_body() {
    // Text right below a heading is a block of its own.
    assert_eq!(
        body_lines(Some(80), "# T\nbody\nmore"),
        vec![
            "    \x1b[1m## T\x1b[0m".to_string(),
            String::new(),
            "    body more".to_string(),
            String::new(),
        ]
    );
    assert_eq!(
        body_lines(Some(80), "#\n## A\r\n- b"),
        vec![
            "    \x1b[1m## A\x1b[0m".to_string(),
            String::new(),
            "    - b".to_string(),
            String::new(),
        ]
    );
    // So is text right behind a fence.
    assert_eq!(
        body_lines(Some(80), "```\nls\n```\nlists files"),
        vec![
            "    \x1b[38;5;244mls\x1b[0m".to_string(),
            String::new(),
            "    lists files".to_string(),
            String::new(),
        ]
    );
    // A fence that is never closed ends with its block.
    assert_eq!(
        body_lines(Some(80), "```\nls\n\ntext"),
        vec![
            "    \x1b[38;5;244mls\x1b[0m".to_string(),
            String::new(),
            "    text".to_string(),
            String::new(),
        ]
    );
}

#[test]
fn reasons_are_gray_and_keep_blank_lines() {
    assert_eq!(
        reason_lines(Some(24), " one\n\n  two words that wrap here"),
        vec![
            "    \x1b[38;5;246mone\x1b[0m".to_string(),
            String::new(),
            "    \x1b[38;5;246mtwo words that wrap\x1b[0m".to_string(),
            "    \x1b[38;5;246mhere\x1b[0m".to_string(),
        ]
    );
    assert!(reason_lines(None, "").is_empty());
}

#[test]
fn only_interactive_sessions_have_a_viewport() {
    assert!(interactive(Some(80), false));
    assert!(!interactive(Some(80), true));
    assert!(!interactive(None, false));
    assert!(LiveView::new(None, false).is_none());
    assert!(LiveView::new(Some(80), true).is_none());
    assert_eq!(LiveView::new(Some(80), false).unwrap().width, 76);
    assert_eq!(LiveView::new(Some(3), false).unwrap().width, 20);
}

#[test]
fn the_viewport_shows_thinking_above_tools() {
    let gray = |s: &str| format!("\x1b[38;5;240m    {}\x1b[0m", s);
    let mut view = LiveView::new(Some(24), false).unwrap();
    // Before there is any thinking its row is empty.
    assert_eq!(view.render(), Some(format!("\n{}\n", gray(""))));
    assert_eq!(
        view.push_tool_line("## a".to_string()),
        Some(format!("\n{}\n\n## a\n", gray("")))
    );
    view.clear();

    assert_eq!(
        view.append_reasoning("one\ntwo\n\n\tthree"),
        Some(format!("\n{}\n", gray("one two three")))
    );
    assert_eq!(view.reasoning, "one two three");

    // At most three lines of thinking.
    let shown = view.append_reasoning(&" 12345678901234567".repeat(4)).unwrap();
    assert_eq!(shown.matches("\x1b[0m").count(), 3);

    view.clear();
    view.append_reasoning("hm");
    assert_eq!(
        view.push_tool_line("## a".to_string()),
        Some(format!("\n{}\n\n## a\n", gray("hm")))
    );
    assert_eq!(
        view.rewrite_last_tool_line("## b".to_string()),
        Some(format!("\n{}\n\n## b\n", gray("hm")))
    );
    // At most five tool lines.
    for i in 0..6 {
        view.push_tool_line(format!("## {}", i));
    }
    assert_eq!(
        view.render(),
        Some(format!("\n{}\n\n## 1\n## 2\n## 3\n## 4\n## 5\n", gray("hm")))
    );

    assert_eq!(view.clear(), Some(format!("\n{}\n", gray(""))));
    // There is no line to rewrite.
    view.rewrite_last_tool_line("## c".to_string());
    assert!(view.tools.is_empty());

    assert!(view.finish());
    assert!(!view.finish());
    assert_eq!(view.append_reasoning("more"), None);
    assert_eq!(view.push_tool_line("## d".to_string()), None);
    assert_eq!(view.rewrite_last_tool_line("## d".to_string()), None);
    assert_eq!(view.clear(), None);
    assert_eq!(view.reasoning, "");
    assert!(view.tools.is_empty());
}

#[test]
fn the_first_line_of_the_viewport_shows_the_mode() {
    let gray = |s: &str| format!("\x1b[38;5;240m    {}\x1b[0m", s);
    let mut view = LiveView::new(Some(80), false).unwrap();
    assert_eq!(view.set_mode("auto"), Some(format!("{}\n{}\n", gray("auto"), gray(""))));
    assert_eq!(
        view.set_mode("all-confirm"),
        Some(format!("{}\n{}\n", gray("all-confirm"), gray("")))
    );
    assert_eq!(
        view.append_reasoning("hm"),
        Some(format!("{}\n{}\n", gray("all-confirm"), gray("hm")))
    );
    // It stays from round to round.
    assert_eq!(view.clear(), Some(format!("{}\n{}\n", gray("all-confirm"), gray(""))));
    view.finish();
    assert_eq!(view.set_mode("auto"), None);
    assert_eq!(view.mode, "all-confirm");
}

#[test]
fn white_space_is_that_of_unicode() {
    for n in 0..=0x10ffffu32 {
        if let Some(c) = char::from_u32(n) {
            assert_eq!(is_white_space(c), c.is_whitespace(), "{:x}", n);
        }
    }
}

#[test]
fn texts_are_taken_apart_like_strings() {
    for s in ["", " ", "a", " a b ", "a\n\nb\r\nc", "a,b, c", "日本 語", "--", "a--b-", "\n", "a\r"] {
        assert_eq!(trim(s), s.trim());
        assert_eq!(lines(s), s.lines().collect::<Vec<_>>());
        assert_eq!(words(s, Class::White), s.split_whitespace().collect::<Vec<_>>());
        assert_eq!(pieces(s, "-"), s.split('-').collect::<Vec<_>>());
        assert_eq!(pieces(s, "--"), s.split("--").collect::<Vec<_>>());
        assert_eq!(contains(s, "b"), s.contains("b"));
        assert_eq!(contains(s, ""), true);
    }
    // Positions count characters.
    assert_eq!(find("日本 語", " "), Some(2));
    assert_eq!(rfind("a日a", "a"), Some(2));
    assert_eq!(find("abc", "d"), None);
    assert_eq!(join(&["a".to_string(), "b".to_string()], ", "), "a, b");
}

#[test]
fn texts_are_ordered_like_strings() {
    let list = ["", "a", "ab", "b", "é", "日", "\u{ffff}", "🎬", "A"];
    for a in list {
        for b in list {
            assert_eq!(is_before(a, b), a < b);
        }
    }
}

#[test]
fn numbers_are_read_and_written() {
    for s in ["", "0", "007", "+5", "-5", "5a", "18446744073709551615", "18446744073709551616", "+", "５"] {
        assert_eq!(parse_number(s), s.parse::<usize>().ok(), "{}", s);
    }
    for n in [0u64, 9, 10, 12345, u64::MAX] {
        assert_eq!(number_text(n), n.to_string());
    }
}

#[test]
fn texts_are_cut_between_characters() {
    assert_eq!(clip("héllo", 3), "hél");
    assert_eq!(clip("héllo", 5), "héllo");
    assert_eq!(clip("日本", 1), "日");
    assert_eq!(clip("日本", 9), "日本");
    assert_eq!(clip("a", 0), "");
}
