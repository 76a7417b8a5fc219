use universal_bookmarks::deleter::bookmarks_path_env_var;
use universal_bookmarks::search::{classify, MatchKind};
use universal_bookmarks::text::{
    ascii_lowercase, chars_of, contains_chars, ends_with, find_char, find_from, is_whitespace,
    parse_u64, replace_all, skip_ws, trim_chars,
};
use universal_bookmarks::types::BookmarkEntry;

fn cs(s: &str) -> Vec<char> {
    s.chars().collect()
}

#[test]
fn chars_of_string() {
    assert_eq!(chars_of("héllo"), vec!['h', 'é', 'l', 'l', 'o']);
}

#[test]
fn case_mappings() {
    // Names are lower-cased with Unicode's mapping before matching.
    let b = BookmarkEntry::new("ÀBC Straße".into(), "https://x".into(), "".into(), "Safari".into());
    assert_eq!(classify(&b, "àbc straße"), MatchKind::Name);
    assert_eq!(classify(&b, "ÀBC"), MatchKind::NoMatch);
    // Browser names are upper-cased with Unicode's mapping.
    assert_eq!(bookmarks_path_env_var("Brave beta"), "BRAVE_BETA_BOOKMARKS_PATH");
    assert_eq!(bookmarks_path_env_var("straße"), "STRASSE_BOOKMARKS_PATH");
    assert_eq!(ascii_lowercase(&cs("AbÇ1")), cs("abÇ1"));
}

#[test]
fn searching() {
    assert_eq!(find_from(&cs("abcabc"), &cs("bc"), 0), Some(1));
    assert_eq!(find_from(&cs("abcabc"), &cs("bc"), 2), Some(4));
    assert_eq!(find_from(&cs("abcabc"), &cs("x"), 0), None);
    assert!(contains_chars(&cs("hello world"), &cs("o w")));
    assert!(contains_chars(&cs("hello"), &cs("")));
    assert!(!contains_chars(&cs("hello"), &cs("hellos")));
    assert_eq!(find_char(&cs("a\tb"), '\t'), Some(1));
    assert_eq!(find_char(&cs("ab"), '\t'), None);
    assert!(ends_with(&cs("x.alfredworkflow"), &cs(".alfredworkflow")));
    assert!(!ends_with(&cs("flow"), &cs(".alfredworkflow")));
}

#[test]
fn replacing() {
    assert_eq!(replace_all(&cs("Brave Beta X"), &cs(" "), &cs("_")), cs("Brave_Beta_X"));
    assert_eq!(replace_all(&cs("com.apple.ReadingList"), &cs("com.apple.ReadingList"), &cs("ReadingList")), cs("ReadingList"));
    assert_eq!(replace_all(&cs("aaa"), &cs("aa"), &cs("b")), cs("ba"));
}

#[test]
fn white_space() {
    assert!(is_whitespace(' '));
    assert!(is_whitespace('\u{3000}'));
    assert!(!is_whitespace('x'));
    assert_eq!(skip_ws(&cs("  \tx"), 0), 3);
    assert_eq!(skip_ws(&cs("   "), 1), 3);
    assert_eq!(trim_chars(&cs(" \n a b \t")), cs("a b"));
    assert!(trim_chars(&cs("  ")).is_empty());
}

#[test]
fn numbers() {
    assert_eq!(parse_u64(&cs("0")), Some(0));
    assert_eq!(parse_u64(&cs("18446744073709551615")), Some(u64::MAX));
    assert_eq!(parse_u64(&cs("18446744073709551616")), None);
    assert_eq!(parse_u64(&cs("+7")), Some(7));
    assert_eq!(parse_u64(&cs("+")), None);
    assert_eq!(parse_u64(&cs("-1")), None);
    assert_eq!(parse_u64(&cs("12a")), None);
    assert_eq!(parse_u64(&cs("")), None);
}
