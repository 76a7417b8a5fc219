use universal_bookmarks::search::{classify, deduplicate, rank_bookmarks, search, MatchKind};
use universal_bookmarks::types::BookmarkEntry;

fn entry(name: &str, url: &str, source: &str) -> BookmarkEntry {
    BookmarkEntry::new(name.to_string(), url.to_string(), String::new(), source.to_string())
}

fn sample() -> Vec<BookmarkEntry> {
    vec![
        entry("Rust Docs", "https://doc.rust-lang.org", "Safari"),
        entry("工作填报", "https://work.example.com/report", "Google Chrome"),
        entry("News", "https://rustacean.news", "Brave"),
        entry("rust playground", "https://play.rust-lang.org", "Arc"),
        entry("Rust Docs again", "https://doc.rust-lang.org", "Google Chrome"),
        entry("Weather", "https://weather.example.com", "Safari"),
    ]
}

#[test]
fn classify_prefers_name_over_url() {
    let b = entry("Rust Docs", "https://doc.rust-lang.org", "Safari");
    assert_eq!(classify(&b, "rust"), MatchKind::Name);
}

#[test]
fn classify_pinyin_hit() {
    let b = entry("工作填报", "https://work.example.com/report", "Safari");
    assert_eq!(classify(&b, "gztb"), MatchKind::Pinyin);
}

#[test]
fn classify_url_hit() {
    let b = entry("News", "https://rustacean.news", "Safari");
    assert_eq!(classify(&b, "rustacean"), MatchKind::Url);
}

#[test]
fn classify_no_match() {
    let b = entry("Weather", "https://weather.example.com", "Safari");
    assert_eq!(classify(&b, "rust"), MatchKind::NoMatch);
}

#[test]
fn classify_name_case_insensitive() {
    let b = entry("RUST Book", "https://example.com", "Safari");
    assert_eq!(classify(&b, "rust book"), MatchKind::Name);
}

#[test]
fn rank_orders_name_then_pinyin_then_url() {
    let bs = sample();
    // "rust": names 0, 3, 4; url 2.
    assert_eq!(rank_bookmarks(&bs, "Rust"), vec![0, 3, 4, 2]);
    // "gz": pinyin 1 only.
    assert_eq!(rank_bookmarks(&bs, "gz"), vec![1]);
}

#[test]
fn rank_pinyin_before_url() {
    let bs = vec![
        entry("Example", "https://gz.example.com", "Safari"),
        entry("工作", "https://a.example.com", "Safari"),
    ];
    assert_eq!(rank_bookmarks(&bs, "gz"), vec![1, 0]);
}

#[test]
fn deduplicate_keeps_first_of_each_url() {
    let bs = sample();
    let mut order = vec![4, 0, 3, 2, 0];
    deduplicate(&bs, &mut order);
    assert_eq!(order, vec![4, 3, 2]);
}

#[test]
fn deduplicate_empty() {
    let bs = sample();
    let mut order: Vec<usize> = Vec::new();
    deduplicate(&bs, &mut order);
    assert!(order.is_empty());
}

#[test]
fn search_hides_duplicate_urls() {
    let bs = sample();
    // Bookmark 4 has the URL of bookmark 0 and is dropped.
    assert_eq!(search(&bs, "rust"), vec![0, 3, 2]);
}

#[test]
fn search_empty_keyword_lists_everything_once() {
    let bs = sample();
    assert_eq!(search(&bs, ""), vec![0, 1, 2, 3, 5]);
}

#[test]
fn search_no_hit() {
    let bs = sample();
    assert!(search(&bs, "zzzz").is_empty());
}

#[test]
fn search_upper_case_keyword() {
    let bs = sample();
    assert_eq!(search(&bs, "WEATHER"), vec![5]);
}

#[test]
fn result_item_fields() {
    let b = BookmarkEntry::new(
        "Rust".to_string(),
        "https://rust-lang.org".to_string(),
        "Bookmarks bar » Dev » ".to_string(),
        "Google Chrome".to_string(),
    );
    let f = universal_bookmarks::search::item_fields(&b);
    assert_eq!(f.title, "Rust");
    assert_eq!(f.subtitle, "Google Chrome » Bookmarks bar » Dev » https://rust-lang.org");
    assert_eq!(f.arg, "https://rust-lang.org");
    assert_eq!(f.uid, "https://rust-lang.org");
    assert_eq!(f.icon_path, "./icon.png");
    assert_eq!(f.delete_subtitle, "Delete from Google Chrome");
    assert_eq!(f.delete_arg, "Google Chrome\thttps://rust-lang.org");
}
