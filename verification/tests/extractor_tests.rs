use universal_bookmarks::extractor::{ChromiumCollector, SafariCollector};
use universal_bookmarks::types::{
    BookmarkEntry, ChromiumBookmarks, ChromiumEntry, ChromiumEntryItemType, Roots, SafariBookmarks,
    SafariEntry, SafariEntryType, SafariURIDictionary,
};

fn chromium(name: &str, url: Option<&str>, kind: ChromiumEntryItemType, children: Option<Vec<ChromiumEntry>>) -> ChromiumEntry {
    ChromiumEntry {
        children,
        date_added: "0".to_string(),
        date_last_used: "0".to_string(),
        date_modified: None,
        guid: "g".to_string(),
        id: "1".to_string(),
        name: name.to_string(),
        source: "user".to_string(),
        url: url.map(|u| u.to_string()),
        kind,
    }
}

fn url_entry(name: &str, url: &str) -> ChromiumEntry {
    chromium(name, Some(url), ChromiumEntryItemType::Url, None)
}

fn folder(name: &str, children: Vec<ChromiumEntry>) -> ChromiumEntry {
    chromium(name, None, ChromiumEntryItemType::Folder, Some(children))
}

fn bookmarks(workspaces: Option<ChromiumEntry>) -> ChromiumBookmarks {
    ChromiumBookmarks {
        checksum: "c".to_string(),
        roots: Roots {
            bookmark_bar: folder("Bookmarks bar", vec![
                url_entry("Rust", "https://rust-lang.org"),
                folder("Dev", vec![url_entry("Crates", "https://crates.io")]),
            ]),
            other: folder("Other bookmarks", vec![url_entry("News", "https://news.example")]),
            synced: folder("Mobile bookmarks", vec![]),
            workspaces_v2: workspaces,
        },
        sync_metadata: None,
        version: 1,
    }
}

fn triple(e: &BookmarkEntry) -> (String, String, String, String) {
    (e.name.clone(), e.url.clone(), e.path.clone(), e.source.clone())
}

#[test]
fn chromium_collector_new_keeps_source() {
    let c = ChromiumCollector::new("Arc".to_string());
    assert_eq!(c.source, "Arc");
}

#[test]
fn chromium_extract_all_walks_roots_in_order() {
    let mut c = ChromiumCollector::new("Google Chrome".to_string());
    let mut out: Vec<BookmarkEntry> = Vec::new();
    c.extract_all(&bookmarks(None), &mut out);
    let got: Vec<_> = out.iter().map(triple).collect();
    assert_eq!(got, vec![
        ("Rust".to_string(), "https://rust-lang.org".to_string(), "Bookmarks bar » ".to_string(), "Google Chrome".to_string()),
        ("Crates".to_string(), "https://crates.io".to_string(), "Bookmarks bar » Dev » ".to_string(), "Google Chrome".to_string()),
        ("News".to_string(), "https://news.example".to_string(), "Other bookmarks » ".to_string(), "Google Chrome".to_string()),
    ]);
}

#[test]
fn chromium_extract_all_includes_workspaces() {
    let mut c = ChromiumCollector::new("Arc".to_string());
    let mut out: Vec<BookmarkEntry> = Vec::new();
    let ws = folder("Spaces", vec![url_entry("Pinned", "https://pinned.example")]);
    c.extract_all(&bookmarks(Some(ws)), &mut out);
    assert_eq!(out.len(), 4);
    assert_eq!(out[3].name, "Pinned");
    assert_eq!(out[3].path, "Spaces » ");
    assert_eq!(out[3].source, "Arc");
}

#[test]
fn chromium_extract_appends_after_existing() {
    let mut c = ChromiumCollector::new("Brave".to_string());
    let mut out = vec![BookmarkEntry::new("a".into(), "b".into(), "c".into(), "Safari".into())];
    c.extract(&url_entry("Top", "https://top.example"), String::from("P » "), &mut out);
    assert_eq!(out.len(), 2);
    assert_eq!(out[0].source, "Safari");
    assert_eq!(triple(&out[1]), ("Top".to_string(), "https://top.example".to_string(), "P » ".to_string(), "Brave".to_string()));
}

#[test]
fn chromium_url_entry_without_url_is_skipped() {
    let mut c = ChromiumCollector::new("Brave".to_string());
    let mut out: Vec<BookmarkEntry> = Vec::new();
    c.extract(&chromium("Broken", None, ChromiumEntryItemType::Url, None), String::new(), &mut out);
    assert!(out.is_empty());
}

#[test]
fn chromium_folder_with_url_is_not_a_bookmark() {
    let mut c = ChromiumCollector::new("Brave".to_string());
    let mut out: Vec<BookmarkEntry> = Vec::new();
    c.extract(&chromium("F", Some("https://f.example"), ChromiumEntryItemType::Folder, None), String::new(), &mut out);
    assert!(out.is_empty());
}

fn safari(title: Option<&str>, url: Option<&str>, kind: SafariEntryType, children: Option<Vec<SafariEntry>>, uri_title: Option<&str>) -> SafariEntry {
    SafariEntry {
        title: title.map(|t| t.to_string()),
        url_string: url.map(|u| u.to_string()),
        children,
        web_bookmark_type: kind,
        uri_dictionary: uri_title.map(|t| SafariURIDictionary { title: t.to_string() }),
    }
}

#[test]
fn safari_collector_source() {
    assert_eq!(SafariCollector::new().source, "Safari");
}

#[test]
fn safari_extract_all_names_and_paths() {
    let tree = SafariBookmarks {
        children: Some(vec![
            safari(Some("BookmarksBar"), None, SafariEntryType::WebBookmarkTypeList, Some(vec![
                safari(Some("Titled"), Some("https://a.example"), SafariEntryType::WebBookmarkTypeLeaf, None, Some("Other")),
                safari(None, Some("https://b.example"), SafariEntryType::WebBookmarkTypeLeaf, None, Some("From dict")),
                safari(None, Some("https://c.example"), SafariEntryType::WebBookmarkTypeLeaf, None, None),
            ]), None),
            safari(Some("com.apple.ReadingList"), None, SafariEntryType::WebBookmarkTypeList, Some(vec![
                safari(None, Some("https://r.example"), SafariEntryType::WebBookmarkTypeLeaf, None, Some("Read me")),
            ]), None),
            safari(None, None, SafariEntryType::WebBookmarkTypeList, Some(vec![
                safari(Some("Deep"), Some("https://d.example"), SafariEntryType::WebBookmarkTypeLeaf, None, None),
            ]), None),
            safari(Some("Proxy"), Some("https://p.example"), SafariEntryType::Unknown, None, None),
            safari(Some("No URL"), None, SafariEntryType::WebBookmarkTypeLeaf, None, None),
        ]),
    };
    let mut c = SafariCollector::new();
    let mut out: Vec<BookmarkEntry> = Vec::new();
    c.extract_all(tree, &mut out);
    let got: Vec<_> = out.iter().map(triple).collect();
    let s = "Safari".to_string();
    assert_eq!(got, vec![
        ("Titled".to_string(), "https://a.example".to_string(), "BookmarksBar » ".to_string(), s.clone()),
        ("From dict".to_string(), "https://b.example".to_string(), "BookmarksBar » ".to_string(), s.clone()),
        ("https://c.example".to_string(), "https://c.example".to_string(), "BookmarksBar » ".to_string(), s.clone()),
        ("Read me".to_string(), "https://r.example".to_string(), "ReadingList » ".to_string(), s.clone()),
        ("Deep".to_string(), "https://d.example".to_string(), "Untitled » ".to_string(), s.clone()),
    ]);
}

#[test]
fn safari_extract_all_without_children() {
    let mut c = SafariCollector::new();
    let mut out: Vec<BookmarkEntry> = Vec::new();
    c.extract_all(SafariBookmarks { children: None }, &mut out);
    assert!(out.is_empty());
}

#[test]
fn safari_nested_folders_build_path() {
    let mut c = SafariCollector::new();
    let mut out: Vec<BookmarkEntry> = Vec::new();
    let tree = safari(Some("A"), None, SafariEntryType::WebBookmarkTypeList, Some(vec![
        safari(Some("B"), None, SafariEntryType::WebBookmarkTypeList, Some(vec![
            safari(Some("Leaf"), Some("https://l.example"), SafariEntryType::WebBookmarkTypeLeaf, None, None),
        ]), None),
    ]), None);
    c.extract(tree, "Root » ".to_string(), &mut out);
    assert_eq!(out.len(), 1);
    assert_eq!(out[0].path, "Root » A » B » ");
}
