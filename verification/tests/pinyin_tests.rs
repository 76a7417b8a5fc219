use universal_bookmarks::pinyin::pinyin_match;
use universal_bookmarks::pinyin::{extract_units, PyUnit};

// ── Core examples ───────────────────────────────────────────────

#[test]
fn full_pinyin() {
    assert!(pinyin_match("工作填报", "gongzuotianbao"));
}

#[test]
fn partial_full_pinyin() {
    assert!(pinyin_match("工作填报", "zuotian"));
}

#[test]
fn full_initials() {
    assert!(pinyin_match("工作填报", "gztb"));
}

#[test]
fn partial_initials() {
    assert!(pinyin_match("工作填报", "zt"));
}

// ── Mixed mode (initials + full pinyin) ─────────────────────────

#[test]
fn mixed_initials_then_full() {
    // g(工) z(作) tian(填) bao(报)
    assert!(pinyin_match("工作填报", "gztianbao"));
}

#[test]
fn mixed_full_then_initials() {
    // gong(工) zuo(作) t(填) b(报)
    assert!(pinyin_match("工作填报", "gongzuotb"));
}

// ── Chinese + English mixed names ───────────────────────────────

#[test]
fn mixed_name_chinese_english() {
    // V2Ray配置 → units: v,2,r,a,y,pei,zhi
    assert!(pinyin_match("V2Ray配置", "v2raypz"));
    assert!(pinyin_match("V2Ray配置", "v2raypeizhi"));
    assert!(pinyin_match("V2Ray配置", "pz"));
    assert!(pinyin_match("V2Ray配置", "peizhi"));
}

#[test]
fn english_prefix_chinese_suffix() {
    assert!(pinyin_match("Google搜索", "googless"));
    assert!(pinyin_match("Google搜索", "sousuo"));
    assert!(pinyin_match("Google搜索", "ss"));
}

// ── Edge cases ──────────────────────────────────────────────────

#[test]
fn empty_keyword_returns_false() {
    assert!(!pinyin_match("工作填报", ""));
}

#[test]
fn pure_ascii_name_returns_false() {
    // No Chinese chars → pinyin matching is not needed
    assert!(!pinyin_match("Google Docs", "google"));
}

#[test]
fn non_ascii_keyword_returns_false() {
    assert!(!pinyin_match("工作填报", "工作"));
}

#[test]
fn single_char_initial() {
    assert!(pinyin_match("工作填报", "g"));
}

#[test]
fn single_char_full() {
    assert!(pinyin_match("工作填报", "gong"));
}

#[test]
fn no_match() {
    assert!(!pinyin_match("工作填报", "xyz"));
}

#[test]
fn keyword_longer_than_all_pinyin() {
    assert!(!pinyin_match("工作", "gongzuotianbao"));
}

#[test]
fn case_insensitive() {
    assert!(pinyin_match("工作填报", "GZTB"));
    assert!(pinyin_match("工作填报", "GongZuo"));
}

#[test]
fn name_with_spaces_and_punctuation() {
    // Spaces and punctuation are skipped in unit extraction
    assert!(pinyin_match("工作 - 填报", "gztb"));
    assert!(pinyin_match("工作（填报）", "tianbao"));
}

#[test]
fn tail_match() {
    assert!(pinyin_match("工作填报", "bao"));
    assert!(pinyin_match("工作填报", "b"));
    assert!(pinyin_match("工作填报", "tb"));
}

// ── Real-world bookmark names ───────────────────────────────────

#[test]
fn real_world_examples() {
    assert!(pinyin_match("百度一下", "baidu"));
    assert!(pinyin_match("百度一下", "bdyx"));
    assert!(pinyin_match("淘宝网", "taobao"));
    assert!(pinyin_match("淘宝网", "tbw"));
    assert!(pinyin_match("知乎 - 有问题就会有答案", "zhihu"));
    assert!(pinyin_match("知乎 - 有问题就会有答案", "zh"));
}

#[test]
fn match_inside_longer_name() {
    assert!(pinyin_match("工作填报", "zt"));
    assert!(pinyin_match("我的工作填报系统", "zt"));
    assert!(pinyin_match("Daily 工作填报!", "gongzuo"));
}

#[test]
fn digits_and_letters_match_themselves() {
    assert!(pinyin_match("2024年报", "2024nb"));
    assert!(!pinyin_match("2024年报", "2023nb"));
}

#[test]
fn no_chinese_never_matches() {
    assert!(!pinyin_match("Rust 2024", "rust"));
    assert!(!pinyin_match("", "a"));
}

#[test]
fn units_of_a_name() {

    let units = extract_units("工A-9 填");
    assert_eq!(units, vec![
        PyUnit::Han("gong".chars().collect()),
        PyUnit::Ascii('a'),
        PyUnit::Ascii('9'),
        PyUnit::Han("tian".chars().collect()),
    ]);
    let mut joined = extract_units("工A");
    joined.extend(extract_units("-9 填"));
    assert_eq!(joined, units);
}
