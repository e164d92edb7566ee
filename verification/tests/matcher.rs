use minigrep::matcher::{contains, fold, line_matches};
use minigrep::scanner::split_first_line;
use minigrep::substring::bytes_occur_in;
use minigrep::CasePolicy;

#[test]
fn contains_finds_a_run_of_characters() {
    assert!(contains("safe, fast, productive.", "duct"));
    assert!(!contains("Duct tape.", "duct"));
    assert!(contains("abc", "abc"));
    assert!(contains("abc", "a"));
    assert!(contains("abc", "c"));
    assert!(!contains("abc", "abcd"));
    assert!(!contains("abc", "ac"));
}

#[test]
fn contains_the_empty_needle_always() {
    assert!(contains("abc", ""));
    assert!(contains("", ""));
    assert!(!contains("", "a"));
}

#[test]
fn bytes_occur_in_tries_every_position() {
    assert!(bytes_occur_in(&[1, 2, 3, 4], &[1, 2]));
    assert!(bytes_occur_in(&[1, 2, 3, 4], &[2, 3]));
    assert!(bytes_occur_in(&[1, 2, 3, 4], &[3, 4]));
    assert!(bytes_occur_in(&[1, 2, 3, 4], &[1, 2, 3, 4]));
    assert!(bytes_occur_in(&[1, 2, 3, 4], &[]));
    assert!(bytes_occur_in(&[], &[]));
    assert!(!bytes_occur_in(&[1, 2, 3, 4], &[4, 3]));
    assert!(!bytes_occur_in(&[1, 2, 3, 4], &[1, 2, 3, 4, 5]));
    assert!(!bytes_occur_in(&[], &[1]));
    assert!(bytes_occur_in(&[1, 1, 1, 2], &[1, 1, 2]));
}

#[test]
fn fold_lowers_ascii_letters_and_keeps_the_rest() {
    assert_eq!(fold("HeLLo, World! 123"), "hello, world! 123");
    assert_eq!(fold("AZaz@[`{"), "azaz@[`{");
    assert_eq!(fold(""), "");
    assert_eq!(fold("already lower"), "already lower");
}

#[test]
fn fold_lowers_letters_beyond_ascii() {
    assert_eq!(fold("\u{c4}PFEL"), "\u{e4}pfel");
    assert_eq!(fold("\u{3a3}"), "\u{3c3}");
    assert_eq!(fold("\u{391}\u{3a3}"), "\u{3b1}\u{3c2}");
}

#[test]
fn line_matches_by_policy() {
    assert!(line_matches("rUsT", "Trust me.", CasePolicy::Insensitive));
    assert!(!line_matches("rUsT", "Trust me.", CasePolicy::Sensitive));
    assert!(line_matches("rust", "Trust me.", CasePolicy::Sensitive));
    assert!(line_matches("", "", CasePolicy::Sensitive));
    assert!(line_matches("", "", CasePolicy::Insensitive));
    assert!(line_matches("", "anything", CasePolicy::Insensitive));
    assert!(!line_matches("a", "", CasePolicy::Insensitive));
}

#[test]
fn split_first_line_cuts_at_the_first_line_feed() {
    assert_eq!(split_first_line("one\ntwo\nthree"), ("one", "two\nthree"));
    assert_eq!(split_first_line("one\n"), ("one", ""));
    assert_eq!(split_first_line("one"), ("one", ""));
    assert_eq!(split_first_line("\nrest"), ("", "rest"));
    assert_eq!(split_first_line("\n"), ("", ""));
    assert_eq!(split_first_line(""), ("", ""));
    assert_eq!(split_first_line("a\r\nb"), ("a\r", "b"));
    assert_eq!(split_first_line("\u{e9}\u{4f60}\n\u{1f980}"), ("\u{e9}\u{4f60}", "\u{1f980}"));
}

#[test]
fn fold_lowers_exactly_the_ascii_capitals() {
    for code in 0u8..128 {
        let c = code as char;
        let expected = if ('A'..='Z').contains(&c) {
            (code + 32) as char
        } else {
            c
        };
        assert_eq!(fold(&c.to_string()), expected.to_string());
        let around = format!("x{}Y{}", c, c);
        let folded = format!("x{}y{}", expected, expected);
        assert_eq!(fold(&around), folded);
    }
}

#[test]
fn fold_gives_the_same_text_each_time() {
    assert_eq!(fold("Stra\u{df}E \u{130}"), fold("Stra\u{df}E \u{130}"));
    assert_eq!(fold("\u{130}"), "i\u{307}");
}

#[test]
fn contains_agrees_with_a_search_by_characters() {
    let hay = "a\u{e9}\u{4f60}b\u{1f980}c";
    let chars: Vec<char> = hay.chars().collect();
    for start in 0..=chars.len() {
        for end in start..=chars.len() {
            let needle: String = chars[start..end].iter().collect();
            assert!(contains(hay, &needle));
        }
    }
    assert!(!contains(hay, "\u{e9}b"));
    assert!(!contains(hay, "c\u{1f980}"));
}
