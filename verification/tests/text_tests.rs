use iforgor::chooser::parse_entry_line;
use iforgor::ondisk::is_blank;
use iforgor::text::{str_contains_sub, str_lex_lt, trim_str};

#[test]
fn lexicographic_order_on_strings() {
    assert!(str_lex_lt("abc", "abd"));
    assert!(str_lex_lt("abc", "abcd"));
    assert!(str_lex_lt("", "a"));
    assert!(!str_lex_lt("b", "abc"));
    assert!(!str_lex_lt("abc", "abc"));
    // uppercase letters come before lowercase ones, as Rust orders strings
    assert!(str_lex_lt("Zeta", "alpha"));
}

#[test]
fn trim_removes_surrounding_whitespace_only() {
    assert_eq!(trim_str("  h\u{e9}llo\t\n"), "h\u{e9}llo");
    assert_eq!(trim_str("no trim"), "no trim");
    assert_eq!(trim_str("   "), "");
    assert_eq!(trim_str("\u{a0}wide\u{2009}"), "wide");
}

#[test]
fn substring_search_finds_runs() {
    assert!(str_contains_sub("gamma", "amm"));
    assert!(str_contains_sub("gamma", ""));
    assert!(str_contains_sub("gamma", "gamma"));
    assert!(!str_contains_sub("gamma", "gammas"));
    assert!(!str_contains_sub("alpha", "m"));
}

#[test]
fn blank_detection_treats_whitespace_as_empty() {
    assert!(is_blank(""));
    assert!(is_blank(" \n\t"));
    assert!(!is_blank(" x "));
}

#[test]
fn entry_lines_split_on_the_first_separator() {
    let e = parse_entry_line("id1 @ Some Name");
    assert_eq!(e.key, "id1");
    assert_eq!(e.name, "Some Name");
    let e = parse_entry_line("a @ b @ c");
    assert_eq!(e.key, "a");
    assert_eq!(e.name, "b @ c");
}

#[test]
fn entry_lines_without_separator_are_their_own_name() {
    let e = parse_entry_line("  just-a-key  ");
    assert_eq!(e.key, "just-a-key");
    assert_eq!(e.name, "just-a-key");
}

#[test]
fn entry_line_key_is_trimmed_name_is_not() {
    let e = parse_entry_line("  spaced  @  padded name ");
    assert_eq!(e.key, "spaced");
    assert_eq!(e.name, " padded name ");
}
