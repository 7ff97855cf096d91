use pwa::menu::{is_number_menu, NumberMenu};
use pwa::prompt::{
    default_yne, input_prompt, parse_answer, parse_provider, parse_tool_answer, question_line,
    yne_options, AnswerWords, Provider, YesNoEdit,
};
use pwa::style::{TextColor, TextStyle};

const WORDS: &[&str] = &["core", "extra", "aur", "chromium"];

fn words() -> AnswerWords {
    AnswerWords { y: "y".to_string(), yes: "yes".to_string(), e: "e".to_string() }
}

/// The answer to a three way prompt, with its words in English.
fn parse_yne(input: &str, yes: bool) -> YesNoEdit {
    pwa::prompt::parse_yne(&words(), input, yes)
}

#[test]
fn e_always_continues_the_conversation() {
    assert_eq!(parse_yne("e", true), YesNoEdit::Edit);
    assert_eq!(parse_yne("e", false), YesNoEdit::Edit);
    assert_eq!(parse_yne(" E \n", true), YesNoEdit::Edit);
}

#[test]
fn enter_takes_the_offered_default() {
    // With a selection on offer, enter accepts it.
    assert_eq!(parse_yne("", true), YesNoEdit::Yes);
    // With nothing to install there is no yes to default to.
    assert_eq!(parse_yne("", false), YesNoEdit::No);
}

#[test]
fn anything_else_declines() {
    assert_eq!(parse_yne("n", true), YesNoEdit::No);
    assert_eq!(parse_yne("no", true), YesNoEdit::No);
    assert_eq!(parse_yne("q", true), YesNoEdit::No);
    assert_eq!(parse_yne("y", true), YesNoEdit::Yes);
}

#[test]
fn number_menu_inputs_are_not_natural_language() {
    // Everything NumberMenu handles today must keep being parsed as numbers.
    assert!(is_number_menu("1", WORDS));
    assert!(is_number_menu("1 2 3", WORDS));
    assert!(is_number_menu("1,2,3", WORDS));
    assert!(is_number_menu("1-3", WORDS));
    assert!(is_number_menu("1-3 5 7-9", WORDS));
    assert!(is_number_menu("^2", WORDS));
    assert!(is_number_menu("1-5 ^3", WORDS));
    assert!(is_number_menu("  4  ", WORDS));
    assert!(is_number_menu("", WORDS));
    assert!(is_number_menu("   ", WORDS));
}

#[test]
fn listed_names_are_not_natural_language() {
    assert!(is_number_menu("core", WORDS));
    assert!(is_number_menu("^aur", WORDS));
    assert!(is_number_menu("1-3 core", WORDS));
}

#[test]
fn prose_is_natural_language() {
    assert!(!is_number_menu("the browser with drm support", WORDS));
    assert!(!is_number_menu("装一个浏览器", WORDS));
    assert!(!is_number_menu("1 and also a video player", WORDS));
    assert!(!is_number_menu("firefox", WORDS));
    assert!(!is_number_menu("what is the difference?", WORDS));
}

#[test]
fn malformed_ranges_are_natural_language() {
    assert!(!is_number_menu("1-", WORDS));
    assert!(!is_number_menu("-3", WORDS));
    assert!(!is_number_menu("1-a", WORDS));
}

#[test]
fn odd_numbers_and_separators_at_the_menu() {
    // A sign or a second dash is read by the menu, so they are no prose.
    assert!(is_number_menu("+5", WORDS));
    assert!(is_number_menu("^+5 1-+7", WORDS));
    assert!(is_number_menu("1-2-3", WORDS));
    assert!(is_number_menu("1-3-x", WORDS));
    assert!(NumberMenu::new("+5").contains(5, ""));
    assert!(NumberMenu::new("1-2-3").contains(2, ""));
    assert!(!NumberMenu::new("1-2-3").contains(3, ""));
    // Only separators hold no word.
    assert!(!is_number_menu(",", WORDS));
    assert!(is_number_menu("^", WORDS));
    assert!(is_number_menu("1\u{3000}2", WORDS));
}

#[test]
fn the_menu_picks_by_number_and_name() {
    let menu = NumberMenu::new("1-3 ^2,core ^^extra");
    assert_eq!(menu.in_range, vec![1..4]);
    assert_eq!(menu.ex_range, vec![2..3]);
    assert_eq!(menu.in_word, vec!["core"]);
    assert_eq!(menu.ex_word, vec!["extra"]);
    // What is put in wins over what is taken out.
    assert!(menu.contains(2, ""));
    assert!(menu.contains(9, "core"));
    assert!(!menu.contains(9, "extra"));
    assert!(!menu.contains(9, ""));

    // Only taking out leaves the rest in.
    let menu = NumberMenu::new("^2-4");
    assert!(menu.contains(1, ""));
    assert!(!menu.contains(3, ""));
    assert!(menu.contains(5, ""));

    // A number and a word make a word.
    let menu = NumberMenu::new("2-b");
    assert!(menu.in_range.is_empty());
    assert_eq!(menu.in_word, vec!["2"]);

    assert!(NumberMenu::new("").contains(1, ""));
    // The largest number is past every entry.
    let largest = format!("{}", usize::MAX);
    assert!(!NumberMenu::new(&largest).contains(usize::MAX, ""));
}

#[test]
fn yes_and_no_answers() {
    assert!(parse_answer(&words(), "y\n", false));
    assert!(parse_answer(&words(), " YES \n", false));
    assert!(parse_answer(&words(), "\n", true));
    assert!(!parse_answer(&words(), "\n", false));
    assert!(!parse_answer(&words(), "n\n", true));
    assert!(!parse_answer(&words(), "yess\n", true));

    assert!(parse_tool_answer(&words(), "\n"));
    assert!(parse_tool_answer(&words(), "Y\n"));
    assert!(!parse_tool_answer(&words(), "no\n"));

    assert_eq!(default_yne(true), YesNoEdit::Yes);
    assert_eq!(default_yne(false), YesNoEdit::No);
    let german = AnswerWords { y: "j".to_string(), yes: "ja".to_string(), e: "b".to_string() };
    assert_eq!(pwa::prompt::parse_yne(&german, "B", true), YesNoEdit::Edit);
    assert_eq!(pwa::prompt::parse_yne(&german, "e", true), YesNoEdit::Edit);
    assert_eq!(pwa::prompt::parse_yne(&german, "ja", true), YesNoEdit::Yes);
    // With nothing to accept the answer is only no or edit.
    assert_eq!(pwa::prompt::parse_yne(&german, "ja", false), YesNoEdit::No);
    assert_eq!(pwa::prompt::parse_yne(&german, "j", false), YesNoEdit::No);
    assert_eq!(pwa::prompt::parse_yne(&german, "", false), YesNoEdit::No);
    assert_eq!(pwa::prompt::parse_yne(&german, "b", false), YesNoEdit::Edit);
}

#[test]
fn providers_are_chosen_by_number() {
    assert_eq!(parse_provider("\n", 3), Provider::Chosen(0));
    assert_eq!(parse_provider(" 3 \n", 3), Provider::Chosen(2));
    assert_eq!(parse_provider("0", 3), Provider::OutOfRange(0));
    assert_eq!(parse_provider("4", 3), Provider::OutOfRange(4));
    assert_eq!(parse_provider("two", 3), Provider::NotANumber);
    assert_eq!(parse_provider("99999999999999999999999", 3), Provider::NotANumber);
}

#[test]
fn questions_are_written_out() {
    let plain = TextStyle { color: TextColor::Plain, bold: false };
    let blue = TextStyle { color: TextColor::Blue, bold: true };
    assert_eq!(question_line(plain, plain, "Go?", yne_options(true)), ":: Go? [Y/n/e] ");
    assert_eq!(question_line(plain, plain, "Go?", yne_options(false)), ":: Go? [N/e] ");
    assert_eq!(input_prompt(blue), "\x1b[1;34m::\x1b[0m ");
}

#[test]
fn a_separator_joins_selections() {
    for (first, second) in [("1-3 ^core", "extra,^7"), ("", "4"), ("x ", " ,^y")] {
        for separator in [" ", ",", "\n"] {
            let text = format!("{}{}{}", first, separator, second);
            let both = NumberMenu::new(&text);
            let a = NumberMenu::new(first);
            let b = NumberMenu::new(second);
            assert_eq!(both.in_range, [a.in_range, b.in_range].concat());
            assert_eq!(both.ex_range, [a.ex_range, b.ex_range].concat());
            assert_eq!(both.in_word, [a.in_word, b.in_word].concat());
            assert_eq!(both.ex_word, [a.ex_word, b.ex_word].concat());
        }
    }
    let both = NumberMenu::new("1-3 ^core,extra,^7");
    assert_eq!(both.in_range, vec![1..4]);
    assert_eq!(both.ex_range, vec![7..8]);
    assert_eq!(both.in_word, vec!["extra"]);
    assert_eq!(both.ex_word, vec!["core"]);
}
