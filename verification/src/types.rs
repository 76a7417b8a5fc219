//! Bookmark records and the shapes of the browsers' bookmark documents.

use vstd::prelude::*;

verus! {

/// Separator between the folder names of a bookmark's path.
pub const PATH_SPLIT: &'static str = " » ";

/// One bookmark found in a browser.
#[derive(Debug, PartialEq, Eq)]
pub struct BookmarkEntry {
    pub name: String,
    pub url: String,
    /// The folders above the bookmark, each followed by `PATH_SPLIT`.
    pub path: String,
    /// The browser it was found in.
    pub source: String,
}

/// The mathematical value of a `BookmarkEntry`.
pub struct BookmarkView {
    pub name: Seq<char>,
    pub url: Seq<char>,
    pub path: Seq<char>,
    pub source: Seq<char>,
}

impl View for BookmarkEntry {
    type V = BookmarkView;

    open spec fn view(&self) -> BookmarkView {
        BookmarkView { name: self.name@, url: self.url@, path: self.path@, source: self.source@ }
    }
}

/// The values of a sequence of entries.
pub open spec fn entries_view(entries: Seq<BookmarkEntry>) -> Seq<BookmarkView> {
    entries.map_values(|e: BookmarkEntry| e@)
}

impl BookmarkEntry {
    pub fn new(name: String, url: String, path: String, source: String) -> (entry: BookmarkEntry)
        ensures
            entry@ == (BookmarkView { name: name@, url: url@, path: path@, source: source@ }),
    {
        BookmarkEntry { name, url, path, source }
    }
}

/// A Chromium-family `Bookmarks` file.
pub struct ChromiumBookmarks {
    pub checksum: String,
    pub roots: Roots,
    pub sync_metadata: Option<String>,
    pub version: i64,
}

/// The top-level folders of a Chromium-family bookmark file.
pub struct Roots {
    pub bookmark_bar: ChromiumEntry,
    pub other: ChromiumEntry,
    pub synced: ChromiumEntry,
    /// Present only in some browsers (Arc's spaces).
    pub workspaces_v2: Option<ChromiumEntry>,
}

/// A folder or a bookmark of a Chromium-family bookmark file.
pub struct ChromiumEntry {
    pub children: Option<Vec<ChromiumEntry>>,
    pub date_added: String,
    pub date_last_used: String,
    pub date_modified: Option<String>,
    pub guid: String,
    pub id: String,
    pub name: String,
    pub source: String,
    pub url: Option<String>,
    /// The entry's `type` field.
    pub kind: ChromiumEntryItemType,
}

#[derive(Debug, Clone, Copy, PartialEq, Eq, Structural)]
pub enum ChromiumEntryItemType {
    Folder,
    Url,
}

/// Safari's `Bookmarks.plist`.
pub struct SafariBookmarks {
    pub children: Option<Vec<SafariEntry>>,
}

/// A folder or a bookmark of Safari's bookmark file.
pub struct SafariEntry {
    pub title: Option<String>,
    pub url_string: Option<String>,
    pub children: Option<Vec<SafariEntry>>,
    pub web_bookmark_type: SafariEntryType,
    pub uri_dictionary: Option<SafariURIDictionary>,
}

#[derive(Debug, Clone, Copy, PartialEq, Eq, Structural)]
pub enum SafariEntryType {
    WebBookmarkTypeLeaf,
    WebBookmarkTypeList,
    /// Any other `WebBookmarkType` (such as a proxy entry).
    Unknown,
}

pub struct SafariURIDictionary {
    pub title: String,
}

/// The browsers searched, each with its bookmark file relative to the home directory.
pub open spec fn provider_table() -> Seq<(&'static str, &'static str)> {
    seq![
        ("Safari", "Library/Safari/Bookmarks.plist"),
        ("Brave", "Library/Application Support/BraveSoftware/Brave-Browser/Default/Bookmarks"),
        ("Brave Beta", "Library/Application Support/BraveSoftware/Brave-Browser-Beta/Default/Bookmarks"),
        ("Google Chrome", "Library/Application Support/Google/Chrome/Default/Bookmarks"),
        ("Chromium", "Library/Application Support/Chromium/Default/Bookmarks"),
        ("Opera", "Library/Application Support/com.operasoftware.Opera/Bookmarks"),
        ("Sidekick", "Library/Application Support/Sidekick/Default/Bookmarks"),
        ("Vivaldi", "Library/Application Support/Vivaldi/Default/Bookmarks"),
        ("Microsoft Edge", "Library/Application Support/Microsoft Edge/Default/Bookmarks"),
        ("Arc", "Library/Application Support/Arc/User Data/Default/Bookmarks"),
        ("Dia", "Library/Application Support/Dia/User Data/Default/Bookmarks"),
        ("Thorium", "Library/Application Support/Thorium/Default/Bookmarks"),
        ("Comet", "Library/Application Support/Comet/Default/Bookmarks"),
        ("Helium", "Library/Application Support/net.imput.helium/Default/Bookmarks"),
    ]
}

/// The browsers searched, in search order, each with its bookmark file relative
/// to the home directory.
pub fn bookmark_providers() -> (providers: Vec<(&'static str, &'static str)>)
    ensures
        providers@ == provider_table(),
{
    let v: Vec<(&'static str, &'static str)> = vec![
        ("Safari", "Library/Safari/Bookmarks.plist"),
        ("Brave", "Library/Application Support/BraveSoftware/Brave-Browser/Default/Bookmarks"),
        ("Brave Beta", "Library/Application Support/BraveSoftware/Brave-Browser-Beta/Default/Bookmarks"),
        ("Google Chrome", "Library/Application Support/Google/Chrome/Default/Bookmarks"),
        ("Chromium", "Library/Application Support/Chromium/Default/Bookmarks"),
        ("Opera", "Library/Application Support/com.operasoftware.Opera/Bookmarks"),
        ("Sidekick", "Library/Application Support/Sidekick/Default/Bookmarks"),
        ("Vivaldi", "Library/Application Support/Vivaldi/Default/Bookmarks"),
        ("Microsoft Edge", "Library/Application Support/Microsoft Edge/Default/Bookmarks"),
        ("Arc", "Library/Application Support/Arc/User Data/Default/Bookmarks"),
        ("Dia", "Library/Application Support/Dia/User Data/Default/Bookmarks"),
        ("Thorium", "Library/Application Support/Thorium/Default/Bookmarks"),
        ("Comet", "Library/Application Support/Comet/Default/Bookmarks"),
        ("Helium", "Library/Application Support/net.imput.helium/Default/Bookmarks"),
    ];
    assert(v@ =~= provider_table());
    v
}

} // verus!
