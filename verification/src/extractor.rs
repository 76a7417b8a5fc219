//! Flattening of the browsers' bookmark trees into lists of `BookmarkEntry`.

use vstd::prelude::*;
use crate::types::{
    BookmarkEntry, BookmarkView, entries_view, ChromiumBookmarks, ChromiumEntry,
    ChromiumEntryItemType, SafariBookmarks, SafariEntry, SafariEntryType, PATH_SPLIT,
};
use crate::text::{chars_of, replaced, replace_all, string_from_chars};

verus! {

// ── Chromium-family browsers ───────────────────────────────────────────────

/// The bookmarks found in `entry` and below it, in document order: the entry itself
/// when it is a URL entry with a URL, then what its children hold, each found under
/// `path` followed by the entry's name and `PATH_SPLIT`.
pub open spec fn chromium_found(entry: ChromiumEntry, path: Seq<char>, source: Seq<char>) -> Seq<BookmarkView>
    decreases entry,
{
    let own = if entry.kind == ChromiumEntryItemType::Url && entry.url is Some {
        seq![BookmarkView { name: entry.name@, url: entry.url->0@, path: path, source: source }]
    } else {
        seq![]
    };
    match entry.children {
        Some(children) => own + chromium_found_all(children@, path + entry.name@ + PATH_SPLIT@, source),
        None => own,
    }
}

/// The bookmarks found in each of `entries`, in order, all under the same `path`.
pub open spec fn chromium_found_all(entries: Seq<ChromiumEntry>, path: Seq<char>, source: Seq<char>) -> Seq<BookmarkView>
    decreases entries,
{
    if entries.len() == 0 {
        seq![]
    } else {
        chromium_found_all(entries.drop_last(), path, source) + chromium_found(entries.last(), path, source)
    }
}

/// The bookmarks of a whole Chromium-family file: the bookmark bar, then "other",
/// then "synced", then the workspaces when present, each from an empty path.
pub open spec fn chromium_bookmarks_found(bookmarks: ChromiumBookmarks, source: Seq<char>) -> Seq<BookmarkView> {
    let roots = bookmarks.roots;
    let empty = Seq::<char>::empty();
    chromium_found(roots.bookmark_bar, empty, source) + chromium_found(roots.other, empty, source)
        + chromium_found(roots.synced, empty, source) + match roots.workspaces_v2 {
        Some(ws) => chromium_found(ws, empty, source),
        None => Seq::<BookmarkView>::empty(),
    }
}

/// Collects the bookmarks of a Chromium-family browser, tagging each with `source`.
pub struct ChromiumCollector {
    pub source: String,
}

impl ChromiumCollector {
    pub fn new(source: String) -> (collector: ChromiumCollector)
        ensures
            collector.source@ == source@,
    {
        ChromiumCollector { source }
    }

    /// Appends to `matches` the bookmarks of `bookmarks`, in document order.
    pub fn extract_all(&mut self, bookmarks: &ChromiumBookmarks, matches: &mut Vec<BookmarkEntry>)
        ensures
            final(self).source@ == old(self).source@,
            entries_view(final(matches)@) == entries_view(old(matches)@) + chromium_bookmarks_found(*bookmarks, old(self).source@),
    {
        let ghost src = self.source@;
        let ghost start = entries_view(matches@);
        self.extract(&bookmarks.roots.bookmark_bar, String::new(), matches);
        self.extract(&bookmarks.roots.other, String::new(), matches);
        self.extract(&bookmarks.roots.synced, String::new(), matches);
        if let Some(ws) = &bookmarks.roots.workspaces_v2 {
            self.extract(ws, String::new(), matches);
        }
        assert(entries_view(matches@) =~= start + chromium_bookmarks_found(*bookmarks, src));
    }

    /// Appends to `matches` the bookmarks found in `entry` under `path`.
    pub fn extract(&mut self, entry: &ChromiumEntry, path: String, matches: &mut Vec<BookmarkEntry>)
        ensures
            final(self).source@ == old(self).source@,
            entries_view(final(matches)@) == entries_view(old(matches)@) + chromium_found(*entry, path@, old(self).source@),
        decreases entry,
    {
        let ghost src = self.source@;
        let ghost start = entries_view(matches@);
        if entry.kind == ChromiumEntryItemType::Url {
            if let Some(url) = &entry.url {
                matches.push(BookmarkEntry::new(entry.name.clone(), url.clone(), path.clone(), self.source.clone()));
                assert(entries_view(matches@) =~= start + seq![matches@.last()@]);
            }
        }
        let ghost own = entries_view(matches@);
        assert(own =~= start + if entry.kind == ChromiumEntryItemType::Url && entry.url is Some {
            seq![BookmarkView { name: entry.name@, url: entry.url->0@, path: path@, source: src }]
        } else {
            seq![]
        });
        if let Some(children) = &entry.children {
            let ghost child_path = path@ + entry.name@ + PATH_SPLIT@;
            for i in 0..children.len()
                invariant
                    self.source@ == src,
                    entry.children == Some(*children),
                    child_path == path@ + entry.name@ + PATH_SPLIT@,
                    entries_view(matches@) == own + chromium_found_all(children@.take(i as int), child_path, src),
            {
                let new_path = path.clone().concat(entry.name.as_str()).concat(PATH_SPLIT);
                assert(new_path@ == child_path);
                proof {
                    assert(decreases_to!(*entry => entry.children));
                    assert(decreases_to!(entry.children => entry.children->0));
                    assert(decreases_to!(*children => children@));
                    assert(decreases_to!(children@ => children@[i as int]));
                }
                self.extract(&children[i], new_path, matches);
                assert(children@.take(i + 1).drop_last() =~= children@.take(i as int));
            }
            assert(children@.take(children.len() as int) =~= children@);
        }
    }
}

// ── Safari ─────────────────────────────────────────────────────────────────

/// The name Safari shows for a bookmark: its title, else the title of its URI
/// dictionary, else its URL.
pub open spec fn safari_leaf_name(entry: SafariEntry, url: Seq<char>) -> Seq<char> {
    match entry.title {
        Some(title) => title@,
        None => match entry.uri_dictionary {
            Some(dict) => dict.title@,
            None => url,
        },
    }
}

/// The path component of a Safari folder: its title ("Untitled" when it has none),
/// with "com.apple.ReadingList" written as "ReadingList".
pub open spec fn safari_folder_name(entry: SafariEntry) -> Seq<char> {
    let title = match entry.title {
        Some(title) => title@,
        None => "Untitled"@,
    };
    replaced(title, "com.apple.ReadingList"@, "ReadingList"@)
}

/// The bookmarks found in a Safari entry: a leaf with a URL gives itself; a list
/// gives what its children hold, under `path` followed by its folder name and
/// `PATH_SPLIT`; anything else gives nothing.
pub open spec fn safari_found(entry: SafariEntry, path: Seq<char>, source: Seq<char>) -> Seq<BookmarkView>
    decreases entry,
{
    match entry.web_bookmark_type {
        SafariEntryType::WebBookmarkTypeLeaf => match entry.url_string {
            Some(url) => seq![BookmarkView { name: safari_leaf_name(entry, url@), url: url@, path: path, source: source }],
            None => seq![],
        },
        SafariEntryType::WebBookmarkTypeList => match entry.children {
            Some(children) => safari_found_all(children@, path + safari_folder_name(entry) + PATH_SPLIT@, source),
            None => seq![],
        },
        SafariEntryType::Unknown => seq![],
    }
}

/// The bookmarks found in each of `entries`, in order, all under the same `path`.
pub open spec fn safari_found_all(entries: Seq<SafariEntry>, path: Seq<char>, source: Seq<char>) -> Seq<BookmarkView>
    decreases entries,
{
    if entries.len() == 0 {
        seq![]
    } else {
        safari_found_all(entries.drop_last(), path, source) + safari_found(entries.last(), path, source)
    }
}

/// Collects Safari's bookmarks.
pub struct SafariCollector {
    pub source: String,
}

impl SafariCollector {
    pub fn new() -> (collector: SafariCollector)
        ensures
            collector.source@ == "Safari"@,
    {
        SafariCollector { source: String::from_str("Safari") }
    }

    /// Appends to `matches` the bookmarks of Safari's top-level entries, in order.
    pub fn extract_all(&mut self, bookmarks: SafariBookmarks, matches: &mut Vec<BookmarkEntry>)
        ensures
            final(self).source@ == old(self).source@,
            entries_view(final(matches)@) == entries_view(old(matches)@) + match bookmarks.children {
                Some(children) => safari_found_all(children@, Seq::<char>::empty(), old(self).source@),
                None => Seq::<BookmarkView>::empty(),
            },
    {
        let ghost start = entries_view(matches@);
        if let Some(children) = bookmarks.children {
            let ghost all = children@;
            let ghost src = self.source@;
            let mut rest = children;
            let n = rest.len();
            let mut k: usize = 0;
            while rest.len() > 0
                invariant
                    self.source@ == src,
                    n == all.len(),
                    k + rest@.len() == n,
                    rest@ == all.skip(k as int),
                    entries_view(matches@) == start + safari_found_all(all.take(k as int), Seq::<char>::empty(), src),
                decreases rest@.len(),
            {
                let child = rest.remove(0);
                assert(child == all[k as int]);
                self.extract(child, String::new(), matches);
                assert(all.take(k + 1).drop_last() =~= all.take(k as int));
                assert(rest@ =~= all.skip(k + 1));
                k = k + 1;
            }
            assert(all.take(k as int) =~= all);
        }
    }

    /// Appends to `matches` the bookmarks found in `entry` under `path`.
    pub fn extract(&mut self, entry: SafariEntry, path: String, matches: &mut Vec<BookmarkEntry>)
        ensures
            final(self).source@ == old(self).source@,
            entries_view(final(matches)@) == entries_view(old(matches)@) + safari_found(entry, path@, old(self).source@),
        decreases entry,
    {
        let ghost e = entry;
        let ghost start = entries_view(matches@);
        let ghost src = self.source@;
        match entry.web_bookmark_type {
            SafariEntryType::WebBookmarkTypeLeaf => {
                if let Some(url) = entry.url_string {
                    let name = if let Some(title) = entry.title {
                        title
                    } else if let Some(uri_dict) = entry.uri_dictionary {
                        uri_dict.title
                    } else {
                        url.clone()
                    };
                    matches.push(BookmarkEntry::new(name, url, path, self.source.clone()));
                    assert(entries_view(matches@) =~= start + seq![matches@.last()@]);
                }
            },
            SafariEntryType::WebBookmarkTypeList => {
                if let Some(children) = entry.children {
                    let title_chars = match &entry.title {
                        Some(title) => chars_of(title.as_str()),
                        None => chars_of("Untitled"),
                    };
                    let from = chars_of("com.apple.ReadingList");
                    let to = chars_of("ReadingList");
                    proof {
                        reveal_strlit("com.apple.ReadingList");
                    }
                    let folder = string_from_chars(replace_all(title_chars.as_slice(), from.as_slice(), to.as_slice()).as_slice());
                    assert(folder@ == safari_folder_name(e));
                    let ghost child_path = path@ + safari_folder_name(e) + PATH_SPLIT@;
                    let ghost all = children@;
                    let mut rest = children;
                    let n = rest.len();
                    let mut k: usize = 0;
                    #[verifier::loop_isolation(false)]
                    while rest.len() > 0
                        invariant
                            self.source@ == src,
                            child_path == path@ + safari_folder_name(e) + PATH_SPLIT@,
                            n == all.len(),
                            k + rest@.len() == n,
                            e.children is Some && e.children->0@ == all,
                            folder@ == safari_folder_name(e),
                            rest@ == all.skip(k as int),
                            entries_view(matches@) == start + safari_found_all(all.take(k as int), child_path, src),
                        decreases rest@.len(),
                    {
                        let child = rest.remove(0);
                        assert(child == all[k as int]);
                        let new_path = path.clone().concat(folder.as_str()).concat(PATH_SPLIT);
                        proof {
                            let v = e.children->0;
                            assert(decreases_to!(e => e.children));
                            assert(decreases_to!(e.children => v));
                            assert(decreases_to!(v => v@));
                            assert(decreases_to!(all => all[k as int]));
                        }
                        self.extract(child, new_path, matches);
                        assert(all.take(k + 1).drop_last() =~= all.take(k as int));
                        assert(rest@ =~= all.skip(k + 1));
                        k = k + 1;
                    }
                    assert(all.take(k as int) =~= all);
                }
            },
            SafariEntryType::Unknown => {},
        }
    }
}

// ── What every collector keeps ────────────────────────────────────────────

/// Every bookmark of `found` carries `source` and lies at or below `path`.
pub open spec fn found_under(found: Seq<BookmarkView>, path: Seq<char>, source: Seq<char>) -> bool {
    forall|k: int| 0 <= k < found.len() ==> (#[trigger] found[k]).source == source
        && path.is_prefix_of(found[k].path)
}

proof fn lemma_found_under_concat(a: Seq<BookmarkView>, b: Seq<BookmarkView>, path: Seq<char>, source: Seq<char>)
    requires
        found_under(a, path, source),
        found_under(b, path, source),
    ensures
        found_under(a + b, path, source),
{
    assert forall|k: int| 0 <= k < (a + b).len() implies (#[trigger] (a + b)[k]).source == source
        && path.is_prefix_of((a + b)[k].path) by {
        if k < a.len() {
            assert((a + b)[k] == a[k]);
        } else {
            assert((a + b)[k] == b[k - a.len()]);
        }
    }
}

proof fn lemma_found_under_deeper(found: Seq<BookmarkView>, path: Seq<char>, deeper: Seq<char>, source: Seq<char>)
    requires
        found_under(found, deeper, source),
        path.is_prefix_of(deeper),
    ensures
        found_under(found, path, source),
{
    assert forall|k: int| 0 <= k < found.len() implies (#[trigger] found[k]).source == source
        && path.is_prefix_of(found[k].path) by {
        let p = found[k].path;
        assert(deeper.is_prefix_of(p));
        assert forall|i: int| 0 <= i < path.len() implies path[i] == p.subrange(0, path.len() as int)[i] by {
            assert(path[i] == deeper[i]);
            assert(deeper[i] == p[i]);
        }
        assert(path =~= p.subrange(0, path.len() as int));
    }
}

proof fn lemma_prefix_of_extended(path: Seq<char>, more: Seq<char>)
    ensures
        path.is_prefix_of(path + more),
{
    assert(path =~= (path + more).subrange(0, path.len() as int));
}

/// Every bookmark found in a Chromium-family entry carries the collector's source
/// and a path that starts with the path the entry was found under.
pub proof fn theorem_chromium_found_under(entry: ChromiumEntry, path: Seq<char>, source: Seq<char>)
    ensures
        found_under(chromium_found(entry, path, source), path, source),
    decreases entry,
{
    let own = if entry.kind == ChromiumEntryItemType::Url && entry.url is Some {
        seq![BookmarkView { name: entry.name@, url: entry.url->0@, path: path, source: source }]
    } else {
        seq![]
    };
    assert(found_under(own, path, source)) by {
        assert(path =~= path.subrange(0, path.len() as int));
    }
    match entry.children {
        Some(children) => {
            let child_path = path + entry.name@ + PATH_SPLIT@;
            assert(decreases_to!(entry => entry.children));
            assert(decreases_to!(entry.children => children));
            lemma_chromium_found_all_under(children@, child_path, source);
            lemma_prefix_of_extended(path, entry.name@ + PATH_SPLIT@);
            assert(child_path =~= path + (entry.name@ + PATH_SPLIT@));
            lemma_found_under_deeper(chromium_found_all(children@, child_path, source), path, child_path, source);
            lemma_found_under_concat(own, chromium_found_all(children@, child_path, source), path, source);
        },
        None => {},
    }
}

proof fn lemma_chromium_found_all_under(entries: Seq<ChromiumEntry>, path: Seq<char>, source: Seq<char>)
    ensures
        found_under(chromium_found_all(entries, path, source), path, source),
    decreases entries,
{
    if entries.len() > 0 {
        lemma_chromium_found_all_under(entries.drop_last(), path, source);
        assert(decreases_to!(entries => entries[entries.len() - 1]));
        theorem_chromium_found_under(entries.last(), path, source);
        lemma_found_under_concat(chromium_found_all(entries.drop_last(), path, source),
            chromium_found(entries.last(), path, source), path, source);
    }
}

/// Every bookmark found in a Safari entry carries the collector's source and a
/// path that starts with the path the entry was found under.
pub proof fn theorem_safari_found_under(entry: SafariEntry, path: Seq<char>, source: Seq<char>)
    ensures
        found_under(safari_found(entry, path, source), path, source),
    decreases entry,
{
    match entry.web_bookmark_type {
        SafariEntryType::WebBookmarkTypeLeaf => {
            assert(path =~= path.subrange(0, path.len() as int));
        },
        SafariEntryType::WebBookmarkTypeList => match entry.children {
            Some(children) => {
                let child_path = path + safari_folder_name(entry) + PATH_SPLIT@;
                assert(decreases_to!(entry => entry.children));
                assert(decreases_to!(entry.children => children));
                lemma_safari_found_all_under(children@, child_path, source);
                lemma_prefix_of_extended(path, safari_folder_name(entry) + PATH_SPLIT@);
                assert(child_path =~= path + (safari_folder_name(entry) + PATH_SPLIT@));
                lemma_found_under_deeper(safari_found_all(children@, child_path, source), path, child_path, source);
            },
            None => {},
        },
        SafariEntryType::Unknown => {},
    }
}

proof fn lemma_safari_found_all_under(entries: Seq<SafariEntry>, path: Seq<char>, source: Seq<char>)
    ensures
        found_under(safari_found_all(entries, path, source), path, source),
    decreases entries,
{
    if entries.len() > 0 {
        lemma_safari_found_all_under(entries.drop_last(), path, source);
        assert(decreases_to!(entries => entries[entries.len() - 1]));
        theorem_safari_found_under(entries.last(), path, source);
        lemma_found_under_concat(safari_found_all(entries.drop_last(), path, source),
            safari_found(entries.last(), path, source), path, source);
    }
}

// ── How many bookmarks a collector finds ──────────────────────────────────

/// The number of URL entries that have a URL in a Chromium-family entry and below it.
pub open spec fn chromium_url_entries(entry: ChromiumEntry) -> nat
    decreases entry,
{
    let own: nat = if entry.kind == ChromiumEntryItemType::Url && entry.url is Some { 1 } else { 0 };
    own + match entry.children {
        Some(children) => chromium_url_entries_all(children@),
        None => 0,
    }
}

/// `chromium_url_entries` summed over `entries`.
pub open spec fn chromium_url_entries_all(entries: Seq<ChromiumEntry>) -> nat
    decreases entries,
{
    if entries.len() == 0 {
        0
    } else {
        chromium_url_entries_all(entries.drop_last()) + chromium_url_entries(entries.last())
    }
}

/// A collector finds one bookmark for each URL entry with a URL below an entry.
pub proof fn theorem_chromium_found_count(entry: ChromiumEntry, path: Seq<char>, source: Seq<char>)
    ensures
        chromium_found(entry, path, source).len() == chromium_url_entries(entry),
    decreases entry,
{
    match entry.children {
        Some(children) => {
            assert(decreases_to!(entry => entry.children));
            assert(decreases_to!(entry.children => children));
            lemma_chromium_found_all_count(children@, path + entry.name@ + PATH_SPLIT@, source);
        },
        None => {},
    }
}

proof fn lemma_chromium_found_all_count(entries: Seq<ChromiumEntry>, path: Seq<char>, source: Seq<char>)
    ensures
        chromium_found_all(entries, path, source).len() == chromium_url_entries_all(entries),
    decreases entries,
{
    if entries.len() > 0 {
        lemma_chromium_found_all_count(entries.drop_last(), path, source);
        assert(decreases_to!(entries => entries[entries.len() - 1]));
        theorem_chromium_found_count(entries.last(), path, source);
    }
}

/// Extracting a whole Chromium-family file finds every URL entry with a URL in all
/// four roots: the bookmark bar, "other", "synced" and, when present, the
/// workspaces; the bookmark bar's come first, each root's found under an empty path.
pub proof fn theorem_chromium_bookmarks_count(bookmarks: ChromiumBookmarks, source: Seq<char>)
    ensures
        chromium_bookmarks_found(bookmarks, source).len() == chromium_url_entries(bookmarks.roots.bookmark_bar)
            + chromium_url_entries(bookmarks.roots.other) + chromium_url_entries(bookmarks.roots.synced)
            + match bookmarks.roots.workspaces_v2 {
                Some(ws) => chromium_url_entries(ws),
                None => 0,
            },
        chromium_bookmarks_found(bookmarks, source).take(chromium_url_entries(bookmarks.roots.bookmark_bar) as int)
            == chromium_found(bookmarks.roots.bookmark_bar, Seq::<char>::empty(), source),
        chromium_bookmarks_found(bookmarks, source).subrange(
            chromium_url_entries(bookmarks.roots.bookmark_bar) as int,
            (chromium_url_entries(bookmarks.roots.bookmark_bar) + chromium_url_entries(bookmarks.roots.other)) as int,
        ) == chromium_found(bookmarks.roots.other, Seq::<char>::empty(), source),
        chromium_bookmarks_found(bookmarks, source).subrange(
            (chromium_url_entries(bookmarks.roots.bookmark_bar) + chromium_url_entries(bookmarks.roots.other)) as int,
            (chromium_url_entries(bookmarks.roots.bookmark_bar) + chromium_url_entries(bookmarks.roots.other)
                + chromium_url_entries(bookmarks.roots.synced)) as int,
        ) == chromium_found(bookmarks.roots.synced, Seq::<char>::empty(), source),
{
    let r = bookmarks.roots;
    let e = Seq::<char>::empty();
    theorem_chromium_found_count(r.bookmark_bar, e, source);
    theorem_chromium_found_count(r.other, e, source);
    theorem_chromium_found_count(r.synced, e, source);
    if let Some(ws) = r.workspaces_v2 {
        theorem_chromium_found_count(ws, e, source);
    }
    let all = chromium_bookmarks_found(bookmarks, source);
    let bar = chromium_found(r.bookmark_bar, e, source);
    let other = chromium_found(r.other, e, source);
    let synced = chromium_found(r.synced, e, source);
    assert(all.take(bar.len() as int) =~= bar);
    assert(all.subrange(bar.len() as int, (bar.len() + other.len()) as int) =~= other);
    assert(all.subrange((bar.len() + other.len()) as int, (bar.len() + other.len() + synced.len()) as int) =~= synced);
}

} // verus!
