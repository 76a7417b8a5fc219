use universal_bookmarks::cache::should_store;
use universal_bookmarks::cache::{cache_file_name, cache_is_fresh};
use universal_bookmarks::types::{bookmark_providers, BookmarkEntry, PATH_SPLIT};

#[test]
fn cache_file_name_replaces_spaces() {
    assert_eq!(cache_file_name("Brave Beta"), "Brave_Beta.rkyv");
    assert_eq!(cache_file_name("Safari"), "Safari.rkyv");
    assert_eq!(cache_file_name("Microsoft  Edge"), "Microsoft__Edge.rkyv");
}

#[test]
fn cache_fresh_when_written_after_source() {
    assert!(cache_is_fresh(Some(100), Some(200)));
    assert!(cache_is_fresh(Some(100), Some(100)));
    assert!(!cache_is_fresh(Some(200), Some(100)));
}

#[test]
fn cache_not_fresh_without_times() {
    assert!(!cache_is_fresh(None, Some(100)));
    assert!(!cache_is_fresh(Some(100), None));
    assert!(!cache_is_fresh(None, None));
}

#[test]
fn bookmark_entry_new_keeps_fields() {
    let e = BookmarkEntry::new(
        "Name".to_string(),
        "https://x.example".to_string(),
        "Bar » ".to_string(),
        "Arc".to_string(),
    );
    assert_eq!(e.name, "Name");
    assert_eq!(e.url, "https://x.example");
    assert_eq!(e.path, "Bar » ");
    assert_eq!(e.source, "Arc");
}

#[test]
fn providers_table() {
    let p = bookmark_providers();
    assert_eq!(p.len(), 14);
    assert_eq!(p[0], ("Safari", "Library/Safari/Bookmarks.plist"));
    assert_eq!(p[3].0, "Google Chrome");
    assert_eq!(p[13], ("Helium", "Library/Application Support/net.imput.helium/Default/Bookmarks"));
}

#[test]
fn path_split_value() {
    assert_eq!(PATH_SPLIT, " » ");
}

#[test]
fn store_only_non_empty() {
    assert!(!should_store(&Vec::new()));
    let e = BookmarkEntry::new("a".into(), "b".into(), "".into(), "Arc".into());
    assert!(should_store(&vec![e]));
}
