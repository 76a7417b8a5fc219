//! Removal of a bookmark, by URL, from a browser's bookmark document.
//!
//! A document is held as a `DocValue`: a tree of keyed maps, lists and texts.
//! Values of other kinds (numbers, dates, data, ...) are carried as `Other`
//! tokens that the caller can map back to what they stood for.

use vstd::prelude::*;
use crate::text::{
    chars_of, string_from_chars, string_of_range, find_char, replaced, replace_all, uppercase_of,
    to_uppercase,
};
use crate::types::{bookmark_providers, provider_table};

verus! {

/// A node of a bookmark document.
#[derive(Debug, PartialEq, Eq)]
pub enum DocValue {
    /// A dictionary / object, with its keys in document order.
    Dict(Vec<(String, DocValue)>),
    List(Vec<DocValue>),
    Text(String),
    /// Any other value, by a token of the caller's choosing.
    Other(u64),
}

/// The mathematical value of a `DocValue`.
pub enum DocView {
    Dict(Seq<(Seq<char>, DocView)>),
    List(Seq<DocView>),
    Text(Seq<char>),
    Other(u64),
}

pub open spec fn doc_view(v: DocValue) -> DocView
    decreases v,
{
    match v {
        DocValue::Dict(entries) => DocView::Dict(entries_doc_view(entries@)),
        DocValue::List(items) => DocView::List(items_doc_view(items@)),
        DocValue::Text(s) => DocView::Text(s@),
        DocValue::Other(token) => DocView::Other(token),
    }
}

pub open spec fn items_doc_view(items: Seq<DocValue>) -> Seq<DocView>
    decreases items,
{
    if items.len() == 0 {
        seq![]
    } else {
        items_doc_view(items.drop_last()).push(doc_view(items.last()))
    }
}

pub open spec fn entries_doc_view(entries: Seq<(String, DocValue)>) -> Seq<(Seq<char>, DocView)>
    decreases entries,
{
    if entries.len() == 0 {
        seq![]
    } else {
        entries_doc_view(entries.drop_last()).push((entries.last().0@, doc_view(entries.last().1)))
    }
}

impl View for DocValue {
    type V = DocView;

    open spec fn view(&self) -> DocView {
        doc_view(*self)
    }
}

pub proof fn lemma_items_doc_view(items: Seq<DocValue>)
    ensures
        items_doc_view(items) == items.map_values(|x: DocValue| doc_view(x)),
    decreases items.len(),
{
    if items.len() > 0 {
        lemma_items_doc_view(items.drop_last());
        assert(items_doc_view(items) =~= items.map_values(|x: DocValue| doc_view(x)));
    } else {
        assert(items_doc_view(items) =~= items.map_values(|x: DocValue| doc_view(x)));
    }
}

pub proof fn lemma_entries_doc_view(entries: Seq<(String, DocValue)>)
    ensures
        entries_doc_view(entries) == entries.map_values(|e: (String, DocValue)| (e.0@, doc_view(e.1))),
    decreases entries.len(),
{
    if entries.len() > 0 {
        lemma_entries_doc_view(entries.drop_last());
    }
    assert(entries_doc_view(entries) =~= entries.map_values(|e: (String, DocValue)| (e.0@, doc_view(e.1))));
}

// ── Keyed access ───────────────────────────────────────────────────────────

/// `i` is the first position of `key` among the keys of `entries`.
pub open spec fn is_first_key(entries: Seq<(Seq<char>, DocView)>, key: Seq<char>, i: int) -> bool {
    &&& 0 <= i < entries.len()
    &&& entries[i].0 == key
    &&& forall|j: int| 0 <= j < i ==> entries[j].0 != key
}

pub open spec fn has_key(entries: Seq<(Seq<char>, DocView)>, key: Seq<char>) -> bool {
    exists|i: int| 0 <= i < entries.len() && entries[i].0 == key
}

/// The first position of `key` in `entries` (meaningful when `has_key`).
pub open spec fn key_index(entries: Seq<(Seq<char>, DocView)>, key: Seq<char>) -> int {
    choose|i: int| is_first_key(entries, key, i)
}

/// The value under `key` of a map (its first one), as `get` of serde_json and plist gives it.
pub open spec fn get_field(v: DocView, key: Seq<char>) -> Option<DocView> {
    match v {
        DocView::Dict(entries) => if has_key(entries, key) {
            Some(entries[key_index(entries, key)].1)
        } else {
            None
        },
        _ => None,
    }
}

/// `v` with the value under `key` (its first one) replaced by `new_value`.
pub open spec fn set_field(v: DocView, key: Seq<char>, new_value: DocView) -> DocView {
    match v {
        DocView::Dict(entries) => if has_key(entries, key) {
            let i = key_index(entries, key);
            DocView::Dict(entries.update(i, (entries[i].0, new_value)))
        } else {
            v
        },
        _ => v,
    }
}

/// Whether `child` is a map whose `key` holds the text `url`.
pub open spec fn links_to(child: DocView, key: Seq<char>, url: Seq<char>) -> bool {
    get_field(child, key) == Some(DocView::Text(url))
}

pub proof fn lemma_first_key_unique(entries: Seq<(Seq<char>, DocView)>, key: Seq<char>, i: int)
    requires
        is_first_key(entries, key, i),
    ensures
        has_key(entries, key),
        key_index(entries, key) == i,
{
    let k = key_index(entries, key);
    assert(is_first_key(entries, key, k));
    if k < i {
        assert(entries[k].0 != key);
    } else if i < k {
        assert(entries[i].0 != key);
    }
}

pub proof fn lemma_no_key(entries: Seq<(Seq<char>, DocView)>, key: Seq<char>)
    requires
        forall|j: int| 0 <= j < entries.len() ==> entries[j].0 != key,
    ensures
        !has_key(entries, key),
{
}

/// The position of the first entry of `entries` with key `key`.
pub fn find_key(entries: &Vec<(String, DocValue)>, key: &str) -> (r: Option<usize>)
    ensures
        match r {
            Some(i) => is_first_key(entries_doc_view(entries@), key@, i as int)
                && key_index(entries_doc_view(entries@), key@) == i as int,
            None => !has_key(entries_doc_view(entries@), key@),
        },
{
    let ghost ev = entries_doc_view(entries@);
    proof {
        lemma_entries_doc_view(entries@);
    }
    let k = String::from_str(key);
    for i in 0..entries.len()
        invariant
            ev == entries_doc_view(entries@),
            ev == entries@.map_values(|e: (String, DocValue)| (e.0@, doc_view(e.1))),
            k@ == key@,
            forall|j: int| 0 <= j < i ==> ev[j].0 != key@,
    {
        if entries[i].0 == k {
            proof {
                lemma_first_key_unique(ev, key@, i as int);
            }
            return Some(i);
        }
    }
    None
}

/// Whether `child` is a map whose `key` holds the text `url`.
pub fn child_links_to(child: &DocValue, key: &str, url: &String) -> (r: bool)
    ensures
        r == links_to(child@, key@, url@),
{
    match child {
        DocValue::Dict(entries) => {
            proof {
                lemma_entries_doc_view(entries@);
            }
            match find_key(entries, key) {
                Some(i) => match &entries[i].1 {
                    DocValue::Text(s) => *s == *url,
                    _ => false,
                },
                None => false,
            }
        },
        _ => false,
    }
}

pub proof fn lemma_min_key(entries: Seq<(Seq<char>, DocView)>, key: Seq<char>, j: int)
    requires
        0 <= j < entries.len(),
        entries[j].0 == key,
    ensures
        exists|i: int| is_first_key(entries, key, i),
    decreases j,
{
    if exists|k: int| 0 <= k < j && entries[k].0 == key {
        let k = choose|k: int| 0 <= k < j && entries[k].0 == key;
        lemma_min_key(entries, key, k);
    } else {
        assert(is_first_key(entries, key, j));
    }
}

pub proof fn lemma_key_index(entries: Seq<(Seq<char>, DocView)>, key: Seq<char>)
    requires
        has_key(entries, key),
    ensures
        is_first_key(entries, key, key_index(entries, key)),
{
    let j = choose|j: int| 0 <= j < entries.len() && entries[j].0 == key;
    lemma_min_key(entries, key, j);
}

// ── Removal from a list of children ────────────────────────────────────────

/// `items` without the maps whose `key` holds the text `url`, in order.
pub open spec fn unlinked(items: Seq<DocView>, key: Seq<char>, url: Seq<char>) -> Seq<DocView>
    decreases items.len(),
{
    if items.len() == 0 {
        seq![]
    } else {
        let prev = unlinked(items.drop_last(), key, url);
        if links_to(items.last(), key, url) {
            prev
        } else {
            prev.push(items.last())
        }
    }
}

/// Whether some item of `items` is a map whose `key` holds the text `url`.
pub open spec fn any_links_to(items: Seq<DocView>, key: Seq<char>, url: Seq<char>) -> bool {
    exists|i: int| 0 <= i < items.len() && #[trigger] links_to(items[i], key, url)
}

/// Filtering removes something exactly when some item links to `url`.
pub proof fn lemma_unlinked_len(items: Seq<DocView>, key: Seq<char>, url: Seq<char>)
    ensures
        unlinked(items, key, url).len() <= items.len(),
        any_links_to(items, key, url) <==> unlinked(items, key, url).len() < items.len(),
        !any_links_to(items, key, url) ==> unlinked(items, key, url) == items,
    decreases items.len(),
{
    if items.len() > 0 {
        let prev = items.drop_last();
        lemma_unlinked_len(prev, key, url);
        if any_links_to(prev, key, url) {
            let i = choose|i: int| 0 <= i < prev.len() && #[trigger] links_to(prev[i], key, url);
            assert(links_to(items[i], key, url));
        }
        if any_links_to(items, key, url) && !links_to(items.last(), key, url) {
            let i = choose|i: int| 0 <= i < items.len() && #[trigger] links_to(items[i], key, url);
            assert(links_to(prev[i], key, url));
        }
        if !any_links_to(items, key, url) {
            assert(!links_to(items[items.len() - 1], key, url));
            assert(!any_links_to(prev, key, url)) by {
                if any_links_to(prev, key, url) {
                    let i = choose|i: int| 0 <= i < prev.len() && #[trigger] links_to(prev[i], key, url);
                    assert(links_to(items[i], key, url));
                }
            }
            assert(prev.push(items.last()) =~= items);
        }
    } else {
        assert(unlinked(items, key, url) =~= items);
    }
}

/// Whether some child links to `url` under `key`.
fn any_child_links_to(items: &Vec<DocValue>, key: &str, url: &String) -> (r: bool)
    ensures
        r == any_links_to(items_doc_view(items@), key@, url@),
{
    let ghost iv = items_doc_view(items@);
    proof {
        lemma_items_doc_view(items@);
    }
    for i in 0..items.len()
        invariant
            iv == items_doc_view(items@),
            iv == items@.map_values(|x: DocValue| doc_view(x)),
            forall|j: int| 0 <= j < i ==> !#[trigger] links_to(iv[j], key@, url@),
    {
        if child_links_to(&items[i], key, url) {
            assert(links_to(iv[i as int], key@, url@));
            return true;
        }
    }
    false
}

/// `items` without the maps whose `key` holds the text `url`, in order.
fn retain_unlinked(items: Vec<DocValue>, key: &str, url: &String) -> (kept: Vec<DocValue>)
    ensures
        items_doc_view(kept@) == unlinked(items_doc_view(items@), key@, url@),
{
    let ghost all = items@;
    proof {
        lemma_items_doc_view(items@);
    }
    let mut kept: Vec<DocValue> = Vec::new();
    for c in it: items
        invariant
            it.seq() == all,
            items_doc_view(all) == all.map_values(|x: DocValue| doc_view(x)),
            items_doc_view(kept@) == unlinked(items_doc_view(all.take(it.index())), key@, url@),
    {
        let ghost k = it.index();
        assert(c == all[k]);
        proof {
            lemma_items_doc_view(all.take(k + 1));
            lemma_items_doc_view(all.take(k));
            assert(items_doc_view(all.take(k + 1)).drop_last() =~= items_doc_view(all.take(k)));
            assert(items_doc_view(all.take(k + 1)).last() == doc_view(c));
        }
        let linked = child_links_to(&c, key, url);
        if !linked {
            let ghost before = kept@;
            kept.push(c);
            assert(kept@.drop_last() =~= before);
        }
    }
    assert(all.take(all.len() as int) =~= all);
    kept
}

// ── Chromium-family documents ──────────────────────────────────────────────

/// Removal of the bookmarks with URL `url` from a Chromium-family folder `v`:
/// when `v` is a map whose "children" is a list, the children whose "url" is `url`
/// are dropped; when none is, the removal goes on into the children, one after the
/// other, up to the first one where it removes something. The flag tells whether
/// something was removed.
pub open spec fn chromium_removed(v: DocView, url: Seq<char>) -> (DocView, bool)
    decreases v,
{
    match v {
        DocView::Dict(entries) => if has_key(entries, "children"@) {
            let i = key_index(entries, "children"@);
            proof {
                lemma_key_index(entries, "children"@);
            }
            match entries[i].1 {
                DocView::List(items) => {
                    let kept = unlinked(items, "url"@, url);
                    if kept.len() < items.len() {
                        (DocView::Dict(entries.update(i, (entries[i].0, DocView::List(kept)))), true)
                    } else {
                        let r = chromium_removed_first(items, url);
                        (DocView::Dict(entries.update(i, (entries[i].0, DocView::List(r.0)))), r.1)
                    }
                },
                _ => (v, false),
            }
        } else {
            (v, false)
        },
        _ => (v, false),
    }
}

/// Removal into the items of a list, one after the other, up to the first one
/// where something is removed.
pub open spec fn chromium_removed_first(items: Seq<DocView>, url: Seq<char>) -> (Seq<DocView>, bool)
    decreases items,
{
    if items.len() == 0 {
        (items, false)
    } else {
        let r = chromium_removed(items[0], url);
        if r.1 {
            (items.update(0, r.0), true)
        } else {
            let rest = chromium_removed_first(items.drop_first(), url);
            (seq![r.0] + rest.0, rest.1)
        }
    }
}

/// Exec form of `chromium_removed`, on an owned value.
fn chromium_remove_value(v: DocValue, url: &String) -> (r: (DocValue, bool))
    ensures
        (r.0@, r.1) == chromium_removed(v@, url@),
    decreases v,
{
    let ghost v0 = v;
    match v {
        DocValue::Dict(mut entries) => {
            let ghost e0 = entries@;
            proof {
                lemma_entries_doc_view(e0);
            }
            match find_key(&entries, "children") {
                None => (DocValue::Dict(entries), false),
                Some(i) => {
                    let (k, child) = entries.remove(i);
                    match child {
                        DocValue::List(items) => {
                            let ghost iv = items_doc_view(items@);
                            proof {
                                lemma_unlinked_len(iv, "url"@, url@);
                            }
                            if any_child_links_to(&items, "url", url) {
                                let kept = retain_unlinked(items, "url", url);
                                entries.insert(i, (k, DocValue::List(kept)));
                                proof {
                                    lemma_entries_doc_view(entries@);
                                    assert(entries@ =~= e0.update(i as int, (e0[i as int].0, DocValue::List(kept))));
                                    assert(entries_doc_view(entries@) =~= entries_doc_view(e0).update(i as int, (entries_doc_view(e0)[i as int].0, DocView::List(items_doc_view(kept@)))));
                                }
                                (DocValue::Dict(entries), true)
                            } else {
                                proof {
                                    assert(decreases_to!(v0 => e0));
                                    assert(decreases_to!(e0 => e0[i as int]));
                                    assert(decreases_to!(e0[i as int] => e0[i as int].1));
                                }
                                let (new_items, found) = chromium_remove_first(items, url);
                                entries.insert(i, (k, DocValue::List(new_items)));
                                proof {
                                    lemma_entries_doc_view(entries@);
                                    assert(entries@ =~= e0.update(i as int, (e0[i as int].0, DocValue::List(new_items))));
                                    assert(entries_doc_view(entries@) =~= entries_doc_view(e0).update(i as int, (entries_doc_view(e0)[i as int].0, DocView::List(items_doc_view(new_items@)))));
                                }
                                (DocValue::Dict(entries), found)
                            }
                        },
                        other => {
                            entries.insert(i, (k, other));
                            assert(entries@ =~= e0);
                            (DocValue::Dict(entries), false)
                        },
                    }
                },
            }
        },
        other => (other, false),
    }
}

/// Exec form of `chromium_removed_first`, on an owned list.
fn chromium_remove_first(items: Vec<DocValue>, url: &String) -> (r: (Vec<DocValue>, bool))
    ensures
        (items_doc_view(r.0@), r.1) == chromium_removed_first(items_doc_view(items@), url@),
    decreases items@,
{
    let ghost all = items@;
    proof {
        lemma_items_doc_view(all);
    }
    if items.len() == 0 {
        return (items, false);
    }
    let mut rest = items;
    let first = rest.remove(0);
    proof {
        assert(decreases_to!(all => all[0]));
        lemma_items_doc_view(rest@);
        assert(rest@ =~= all.drop_first());
        assert(items_doc_view(rest@) =~= items_doc_view(all).drop_first());
    }
    let (new_first, found) = chromium_remove_value(first, url);
    if found {
        rest.insert(0, new_first);
        proof {
            lemma_items_doc_view(rest@);
            assert(items_doc_view(rest@) =~= items_doc_view(all).update(0, new_first@));
        }
        (rest, true)
    } else {
        let (mut new_rest, found_rest) = chromium_remove_first(rest, url);
        let ghost tail = new_rest@;
        new_rest.insert(0, new_first);
        proof {
            lemma_items_doc_view(new_rest@);
            lemma_items_doc_view(tail);
            assert(new_rest@ =~= seq![new_first] + tail);
            assert(items_doc_view(new_rest@) =~= seq![new_first@] + items_doc_view(tail));
            assert(items_doc_view(all)[0] == doc_view(all[0]));
        }
        (new_rest, found_rest)
    }
}

/// Removes from the Chromium-family folder `entry` the bookmarks with URL `url`:
/// those among its children when there are any, else, recursively, in the first
/// child where some are found. Returns whether something was removed.
pub fn remove_chromium_entry(entry: &mut DocValue, url: &str) -> (removed: bool)
    ensures
        (final(entry)@, removed) == chromium_removed(old(entry)@, url@),
{
    let url_string = String::from_str(url);
    let mut taken = DocValue::Other(0);
    std::mem::swap(entry, &mut taken);
    let (new_value, removed) = chromium_remove_value(taken, &url_string);
    *entry = new_value;
    removed
}

// ── Safari documents ───────────────────────────────────────────────────────

/// Removal of the bookmarks with URL `url` from a Safari list of children: the
/// dictionaries whose "URLString" is `url` are dropped; when none is, the removal
/// goes on into the "Children" list of each item, one after the other, up to the
/// first one where it removes something.
pub open spec fn safari_removed(items: Seq<DocView>, url: Seq<char>) -> (Seq<DocView>, bool)
    decreases items, 1nat,
{
    let kept = unlinked(items, "URLString"@, url);
    if kept.len() < items.len() {
        (kept, true)
    } else {
        safari_removed_nested(items, url)
    }
}

/// Removal into the "Children" of the items, up to the first one where something is removed.
pub open spec fn safari_removed_nested(items: Seq<DocView>, url: Seq<char>) -> (Seq<DocView>, bool)
    decreases items, 0nat,
{
    if items.len() == 0 {
        (items, false)
    } else {
        let r = safari_removed_in(items[0], url);
        if r.1 {
            (items.update(0, r.0), true)
        } else {
            let rest = safari_removed_nested(items.drop_first(), url);
            (seq![r.0] + rest.0, rest.1)
        }
    }
}

/// Removal from the "Children" list of a dictionary, when it has one.
pub open spec fn safari_removed_in(child: DocView, url: Seq<char>) -> (DocView, bool)
    decreases child, 2nat,
{
    match child {
        DocView::Dict(entries) => if has_key(entries, "Children"@) {
            let i = key_index(entries, "Children"@);
            proof {
                lemma_key_index(entries, "Children"@);
            }
            match entries[i].1 {
                DocView::List(inner) => {
                    let r = safari_removed(inner, url);
                    (DocView::Dict(entries.update(i, (entries[i].0, DocView::List(r.0)))), r.1)
                },
                _ => (child, false),
            }
        } else {
            (child, false)
        },
        _ => (child, false),
    }
}

fn safari_remove_list(items: Vec<DocValue>, url: &String) -> (r: (Vec<DocValue>, bool))
    ensures
        (items_doc_view(r.0@), r.1) == safari_removed(items_doc_view(items@), url@),
    decreases items@, 1nat,
{
    proof {
        lemma_unlinked_len(items_doc_view(items@), "URLString"@, url@);
    }
    if any_child_links_to(&items, "URLString", url) {
        (retain_unlinked(items, "URLString", url), true)
    } else {
        safari_remove_nested(items, url)
    }
}

fn safari_remove_nested(items: Vec<DocValue>, url: &String) -> (r: (Vec<DocValue>, bool))
    ensures
        (items_doc_view(r.0@), r.1) == safari_removed_nested(items_doc_view(items@), url@),
    decreases items@, 0nat,
{
    let ghost all = items@;
    proof {
        lemma_items_doc_view(all);
    }
    if items.len() == 0 {
        return (items, false);
    }
    let mut rest = items;
    let first = rest.remove(0);
    proof {
        assert(decreases_to!(all => all[0]));
        lemma_items_doc_view(rest@);
        assert(rest@ =~= all.drop_first());
        assert(items_doc_view(rest@) =~= items_doc_view(all).drop_first());
    }
    let (new_first, found) = safari_remove_in(first, url);
    if found {
        rest.insert(0, new_first);
        proof {
            lemma_items_doc_view(rest@);
            assert(items_doc_view(rest@) =~= items_doc_view(all).update(0, new_first@));
        }
        (rest, true)
    } else {
        let (mut new_rest, found_rest) = safari_remove_nested(rest, url);
        let ghost tail = new_rest@;
        new_rest.insert(0, new_first);
        proof {
            lemma_items_doc_view(new_rest@);
            lemma_items_doc_view(tail);
            assert(new_rest@ =~= seq![new_first] + tail);
            assert(items_doc_view(new_rest@) =~= seq![new_first@] + items_doc_view(tail));
            assert(items_doc_view(all)[0] == doc_view(all[0]));
        }
        (new_rest, found_rest)
    }
}

fn safari_remove_in(child: DocValue, url: &String) -> (r: (DocValue, bool))
    ensures
        (r.0@, r.1) == safari_removed_in(child@, url@),
    decreases child, 2nat,
{
    let ghost c0 = child;
    match child {
        DocValue::Dict(mut entries) => {
            let ghost e0 = entries@;
            proof {
                lemma_entries_doc_view(e0);
            }
            match find_key(&entries, "Children") {
                None => (DocValue::Dict(entries), false),
                Some(i) => {
                    let (k, value) = entries.remove(i);
                    match value {
                        DocValue::List(inner) => {
                            proof {
                                assert(decreases_to!(c0 => e0));
                                assert(decreases_to!(e0 => e0[i as int]));
                                assert(decreases_to!(e0[i as int] => e0[i as int].1));
                            }
                            let (new_inner, found) = safari_remove_list(inner, url);
                            entries.insert(i, (k, DocValue::List(new_inner)));
                            proof {
                                lemma_entries_doc_view(entries@);
                                assert(entries@ =~= e0.update(i as int, (e0[i as int].0, DocValue::List(new_inner))));
                                assert(entries_doc_view(entries@) =~= entries_doc_view(e0).update(i as int, (entries_doc_view(e0)[i as int].0, DocView::List(items_doc_view(new_inner@)))));
                            }
                            (DocValue::Dict(entries), found)
                        },
                        other => {
                            entries.insert(i, (k, other));
                            assert(entries@ =~= e0);
                            (DocValue::Dict(entries), false)
                        },
                    }
                },
            }
        },
        other => (other, false),
    }
}

/// Removes from a Safari list of children the bookmarks with URL `url`: those in
/// the list itself when there are any, else, recursively, in the first item's
/// "Children" where some are found. Returns whether something was removed.
pub fn remove_safari_entry(children: &mut Vec<DocValue>, url: &str) -> (removed: bool)
    ensures
        (items_doc_view(final(children)@), removed) == safari_removed(items_doc_view(old(children)@), url@),
{
    let url_string = String::from_str(url);
    let mut taken: Vec<DocValue> = Vec::new();
    std::mem::swap(children, &mut taken);
    let (new_children, removed) = safari_remove_list(taken, &url_string);
    *children = new_children;
    removed
}

// ── Laws ───────────────────────────────────────────────────────────────────

/// When no bookmark is removed from a Chromium-family folder, the folder is left as it was.
pub proof fn lemma_chromium_unchanged(v: DocView, url: Seq<char>)
    ensures
        !chromium_removed(v, url).1 ==> chromium_removed(v, url).0 == v,
    decreases v,
{
    if let DocView::Dict(entries) = v {
        if has_key(entries, "children"@) {
            let i = key_index(entries, "children"@);
            lemma_key_index(entries, "children"@);
            if let DocView::List(items) = entries[i].1 {
                lemma_unlinked_len(items, "url"@, url);
                if unlinked(items, "url"@, url).len() >= items.len() {
                    assert(decreases_to!(v => entries));
                    assert(decreases_to!(entries => entries[i]));
                    assert(decreases_to!(entries[i] => entries[i].1));
                    lemma_chromium_first_unchanged(items, url);
                    assert(entries.update(i, (entries[i].0, DocView::List(items))) =~= entries);
                }
            }
        }
    }
}

/// When no bookmark is removed from any item of a list, the list is left as it was.
pub proof fn lemma_chromium_first_unchanged(items: Seq<DocView>, url: Seq<char>)
    ensures
        !chromium_removed_first(items, url).1 ==> chromium_removed_first(items, url).0 == items,
    decreases items,
{
    if items.len() > 0 {
        assert(decreases_to!(items => items[0]));
        lemma_chromium_unchanged(items[0], url);
        lemma_chromium_first_unchanged(items.drop_first(), url);
        assert(seq![items[0]] + items.drop_first() =~= items);
    }
}

/// When no bookmark is removed from a Safari list, the list is left as it was.
pub proof fn lemma_safari_unchanged(items: Seq<DocView>, url: Seq<char>)
    ensures
        !safari_removed(items, url).1 ==> safari_removed(items, url).0 == items,
    decreases items, 1nat,
{
    lemma_unlinked_len(items, "URLString"@, url);
    lemma_safari_nested_unchanged(items, url);
}

pub proof fn lemma_safari_nested_unchanged(items: Seq<DocView>, url: Seq<char>)
    ensures
        !safari_removed_nested(items, url).1 ==> safari_removed_nested(items, url).0 == items,
    decreases items, 0nat,
{
    if items.len() > 0 {
        assert(decreases_to!(items => items[0]));
        lemma_safari_in_unchanged(items[0], url);
        lemma_safari_nested_unchanged(items.drop_first(), url);
        assert(seq![items[0]] + items.drop_first() =~= items);
    }
}

pub proof fn lemma_safari_in_unchanged(child: DocView, url: Seq<char>)
    ensures
        !safari_removed_in(child, url).1 ==> safari_removed_in(child, url).0 == child,
    decreases child, 2nat,
{
    if let DocView::Dict(entries) = child {
        if has_key(entries, "Children"@) {
            let i = key_index(entries, "Children"@);
            lemma_key_index(entries, "Children"@);
            if let DocView::List(inner) = entries[i].1 {
                assert(decreases_to!(child => entries));
                assert(decreases_to!(entries => entries[i]));
                assert(decreases_to!(entries[i] => entries[i].1));
                lemma_safari_unchanged(inner, url);
                assert(entries.update(i, (entries[i].0, DocView::List(inner))) =~= entries);
            }
        }
    }
}

// ── Counting links ─────────────────────────────────────────────────────────

/// The number of maps in `v` and below it whose `key` holds the text `url`.
pub open spec fn link_count(v: DocView, key: Seq<char>, url: Seq<char>) -> nat
    decreases v,
{
    let own: nat = if links_to(v, key, url) { 1 } else { 0 };
    own + match v {
        DocView::Dict(entries) => fields_link_count(entries, key, url),
        DocView::List(items) => items_link_count(items, key, url),
        _ => 0,
    }
}

/// `link_count` summed over the items of a list.
pub open spec fn items_link_count(items: Seq<DocView>, key: Seq<char>, url: Seq<char>) -> nat
    decreases items,
{
    if items.len() == 0 {
        0
    } else {
        items_link_count(items.drop_last(), key, url) + link_count(items.last(), key, url)
    }
}

/// `link_count` summed over the values of a map.
pub open spec fn fields_link_count(entries: Seq<(Seq<char>, DocView)>, key: Seq<char>, url: Seq<char>) -> nat
    decreases entries,
{
    if entries.len() == 0 {
        0
    } else {
        fields_link_count(entries.drop_last(), key, url) + link_count(entries.last().1, key, url)
    }
}

proof fn lemma_items_count_update(items: Seq<DocView>, i: int, nv: DocView, key: Seq<char>, url: Seq<char>)
    requires
        0 <= i < items.len(),
    ensures
        items_link_count(items.update(i, nv), key, url) + link_count(items[i], key, url)
            == items_link_count(items, key, url) + link_count(nv, key, url),
    decreases items.len(),
{
    let up = items.update(i, nv);
    if i < items.len() - 1 {
        assert(up.drop_last() =~= items.drop_last().update(i, nv));
        lemma_items_count_update(items.drop_last(), i, nv, key, url);
        assert(up.last() == items.last());
    } else {
        assert(up.drop_last() =~= items.drop_last());
    }
}

proof fn lemma_fields_count_update(entries: Seq<(Seq<char>, DocView)>, i: int, nv: DocView, key: Seq<char>, url: Seq<char>)
    requires
        0 <= i < entries.len(),
    ensures
        fields_link_count(entries.update(i, (entries[i].0, nv)), key, url) + link_count(entries[i].1, key, url)
            == fields_link_count(entries, key, url) + link_count(nv, key, url),
    decreases entries.len(),
{
    let up = entries.update(i, (entries[i].0, nv));
    if i < entries.len() - 1 {
        assert(up.drop_last() =~= entries.drop_last().update(i, (entries[i].0, nv)));
        lemma_fields_count_update(entries.drop_last(), i, nv, key, url);
        assert(up.last() == entries.last());
    } else {
        assert(up.drop_last() =~= entries.drop_last());
    }
}

proof fn lemma_items_count_concat(a: Seq<DocView>, b: Seq<DocView>, key: Seq<char>, url: Seq<char>)
    ensures
        items_link_count(a + b, key, url) == items_link_count(a, key, url) + items_link_count(b, key, url),
    decreases b.len(),
{
    if b.len() == 0 {
        assert(a + b =~= a);
    } else {
        assert((a + b).drop_last() =~= a + b.drop_last());
        lemma_items_count_concat(a, b.drop_last(), key, url);
    }
}

/// Dropping the items that link to `url` lowers the count by at least one per dropped item.
proof fn lemma_unlinked_count(items: Seq<DocView>, key: Seq<char>, url: Seq<char>)
    ensures
        items_link_count(unlinked(items, key, url), key, url) + items.len()
            <= items_link_count(items, key, url) + unlinked(items, key, url).len(),
    decreases items.len(),
{
    if items.len() > 0 {
        let prev = unlinked(items.drop_last(), key, url);
        lemma_unlinked_count(items.drop_last(), key, url);
        if !links_to(items.last(), key, url) {
            let kept = prev.push(items.last());
            assert(kept.drop_last() =~= prev);
            assert(kept.last() == items.last());
            assert(items_link_count(kept, key, url) == items_link_count(prev, key, url) + link_count(items.last(), key, url));
        } else {
            assert(link_count(items.last(), key, url) >= 1);
        }
    }
}

/// Replacing the value under one key of a map does not change what another key holds.
proof fn lemma_links_after_update(entries: Seq<(Seq<char>, DocView)>, i: int, nv: DocView, key: Seq<char>, url: Seq<char>)
    requires
        0 <= i < entries.len(),
        entries[i].0 != key,
    ensures
        links_to(DocView::Dict(entries.update(i, (entries[i].0, nv))), key, url)
            == links_to(DocView::Dict(entries), key, url),
{
    let up = entries.update(i, (entries[i].0, nv));
    assert forall|j: int| 0 <= j < entries.len() implies up[j].0 == entries[j].0 by {}
    if has_key(entries, key) {
        lemma_key_index(entries, key);
        let k = key_index(entries, key);
        assert(is_first_key(up, key, k));
        lemma_first_key_unique(up, key, k);
        assert(up[k] == entries[k]);
    } else {
        assert forall|j: int| 0 <= j < up.len() implies up[j].0 != key by {
            assert(up[j].0 == entries[j].0);
        }
        lemma_no_key(up, key);
    }
}

/// The count of a map after replacing its field at `i` (not under `key`).
proof fn lemma_dict_count_update(entries: Seq<(Seq<char>, DocView)>, i: int, nv: DocView, key: Seq<char>, url: Seq<char>)
    requires
        0 <= i < entries.len(),
        entries[i].0 != key,
    ensures
        link_count(DocView::Dict(entries.update(i, (entries[i].0, nv))), key, url) + link_count(entries[i].1, key, url)
            == link_count(DocView::Dict(entries), key, url) + link_count(nv, key, url),
{
    lemma_links_after_update(entries, i, nv, key, url);
    lemma_fields_count_update(entries, i, nv, key, url);
}

proof fn lemma_chromium_removed_count(v: DocView, url: Seq<char>)
    ensures
        chromium_removed(v, url).1 ==> link_count(chromium_removed(v, url).0, "url"@, url) < link_count(v, "url"@, url),
    decreases v,
{
    let key = "url"@;
    if let DocView::Dict(entries) = v {
        if has_key(entries, "children"@) {
            let i = key_index(entries, "children"@);
            lemma_key_index(entries, "children"@);
            if let DocView::List(items) = entries[i].1 {
                assert(entries[i].0 != key) by {
                    reveal_strlit("url");
                    reveal_strlit("children");
                    assert(entries[i].0.len() != key.len());
                }
                let kept = unlinked(items, key, url);
                if kept.len() < items.len() {
                    lemma_unlinked_count(items, key, url);
                    lemma_dict_count_update(entries, i, DocView::List(kept), key, url);
                } else {
                    assert(decreases_to!(v => entries));
                    assert(decreases_to!(entries => entries[i]));
                    assert(decreases_to!(entries[i] => entries[i].1));
                    lemma_chromium_first_count(items, url);
                    let r = chromium_removed_first(items, url);
                    lemma_dict_count_update(entries, i, DocView::List(r.0), key, url);
                }
            }
        }
    }
}

proof fn lemma_chromium_first_count(items: Seq<DocView>, url: Seq<char>)
    ensures
        chromium_removed_first(items, url).1 ==>
            items_link_count(chromium_removed_first(items, url).0, "url"@, url) < items_link_count(items, "url"@, url),
    decreases items,
{
    let key = "url"@;
    if items.len() > 0 {
        assert(decreases_to!(items => items[0]));
        lemma_chromium_removed_count(items[0], url);
        let r = chromium_removed(items[0], url);
        if r.1 {
            lemma_items_count_update(items, 0, r.0, key, url);
        } else {
            lemma_chromium_unchanged(items[0], url);
            lemma_chromium_first_count(items.drop_first(), url);
            let rest = chromium_removed_first(items.drop_first(), url);
            lemma_items_count_concat(seq![r.0], rest.0, key, url);
            lemma_items_count_concat(seq![items[0]], items.drop_first(), key, url);
            assert(seq![items[0]] + items.drop_first() =~= items);
            assert(seq![r.0].drop_last() =~= Seq::<DocView>::empty());
        }
    }
}

proof fn lemma_safari_removed_count(items: Seq<DocView>, url: Seq<char>)
    ensures
        safari_removed(items, url).1 ==>
            items_link_count(safari_removed(items, url).0, "URLString"@, url) < items_link_count(items, "URLString"@, url),
    decreases items, 1nat,
{
    let key = "URLString"@;
    lemma_unlinked_count(items, key, url);
    lemma_safari_nested_count(items, url);
}

proof fn lemma_safari_nested_count(items: Seq<DocView>, url: Seq<char>)
    ensures
        safari_removed_nested(items, url).1 ==>
            items_link_count(safari_removed_nested(items, url).0, "URLString"@, url) < items_link_count(items, "URLString"@, url),
    decreases items, 0nat,
{
    let key = "URLString"@;
    if items.len() > 0 {
        assert(decreases_to!(items => items[0]));
        lemma_safari_in_count(items[0], url);
        let r = safari_removed_in(items[0], url);
        if r.1 {
            lemma_items_count_update(items, 0, r.0, key, url);
        } else {
            lemma_safari_in_unchanged(items[0], url);
            lemma_safari_nested_count(items.drop_first(), url);
            let rest = safari_removed_nested(items.drop_first(), url);
            lemma_items_count_concat(seq![r.0], rest.0, key, url);
            lemma_items_count_concat(seq![items[0]], items.drop_first(), key, url);
            assert(seq![items[0]] + items.drop_first() =~= items);
            assert(seq![r.0].drop_last() =~= Seq::<DocView>::empty());
        }
    }
}

proof fn lemma_safari_in_count(child: DocView, url: Seq<char>)
    ensures
        safari_removed_in(child, url).1 ==>
            link_count(safari_removed_in(child, url).0, "URLString"@, url) < link_count(child, "URLString"@, url),
    decreases child, 2nat,
{
    let key = "URLString"@;
    if let DocView::Dict(entries) = child {
        if has_key(entries, "Children"@) {
            let i = key_index(entries, "Children"@);
            lemma_key_index(entries, "Children"@);
            if let DocView::List(inner) = entries[i].1 {
                assert(entries[i].0 != key) by {
                    reveal_strlit("URLString");
                    reveal_strlit("Children");
                    assert(entries[i].0.len() != key.len());
                }
                assert(decreases_to!(child => entries));
                assert(decreases_to!(entries => entries[i]));
                assert(decreases_to!(entries[i] => entries[i].1));
                lemma_safari_removed_count(inner, url);
                let r = safari_removed(inner, url);
                lemma_dict_count_update(entries, i, DocView::List(r.0), key, url);
            }
        }
    }
}

// ── Whole documents ────────────────────────────────────────────────────────

/// Why a bookmark could not be removed from a document.
#[derive(Debug, Clone, Copy, PartialEq, Eq, Structural)]
pub enum DeleteError {
    MissingRoots,
    NotDictionary,
    MissingChildren,
    ChildrenNotArray,
    NotFound,
}

pub open spec fn delete_error_text(e: DeleteError) -> Seq<char> {
    match e {
        DeleteError::MissingRoots => "Missing 'roots' in bookmarks"@,
        DeleteError::NotDictionary => "Safari bookmarks is not a dictionary"@,
        DeleteError::MissingChildren => "No Children key in bookmarks"@,
        DeleteError::ChildrenNotArray => "Children is not an array"@,
        DeleteError::NotFound => "Bookmark not found"@,
    }
}

impl DeleteError {
    /// The message reported for the error.
    pub fn message(&self) -> (s: String)
        ensures
            s@ == delete_error_text(*self),
    {
        match self {
            DeleteError::MissingRoots => String::from_str("Missing 'roots' in bookmarks"),
            DeleteError::NotDictionary => String::from_str("Safari bookmarks is not a dictionary"),
            DeleteError::MissingChildren => String::from_str("No Children key in bookmarks"),
            DeleteError::ChildrenNotArray => String::from_str("Children is not an array"),
            DeleteError::NotFound => String::from_str("Bookmark not found"),
        }
    }
}

/// Removal under the root folder `key` of `roots`, when `roots` has one.
pub open spec fn root_removed(roots: DocView, key: Seq<char>, url: Seq<char>) -> (DocView, bool) {
    match get_field(roots, key) {
        Some(root) => {
            let r = chromium_removed(root, url);
            (set_field(roots, key, r.0), r.1)
        },
        None => (roots, false),
    }
}

/// Removal from the root folders of a Chromium-family file, in the order
/// "bookmark_bar", "other", "synced", "workspaces_v2", up to the first one where
/// something is removed.
pub open spec fn roots_removed(roots: DocView, url: Seq<char>) -> (DocView, bool) {
    let a = root_removed(roots, "bookmark_bar"@, url);
    if a.1 {
        a
    } else {
        let b = root_removed(a.0, "other"@, url);
        if b.1 {
            b
        } else {
            let c = root_removed(b.0, "synced"@, url);
            if c.1 {
                c
            } else {
                root_removed(c.0, "workspaces_v2"@, url)
            }
        }
    }
}

/// The Chromium-family document `doc` after removing the bookmarks with URL `url`,
/// or why nothing was removed.
pub open spec fn chromium_document_removed(doc: DocView, url: Seq<char>) -> Result<DocView, DeleteError> {
    match get_field(doc, "roots"@) {
        None => Err(DeleteError::MissingRoots),
        Some(roots) => {
            let r = roots_removed(roots, url);
            if r.1 {
                Ok(set_field(doc, "roots"@, r.0))
            } else {
                Err(DeleteError::NotFound)
            }
        },
    }
}

/// Removal under `key` of the map `entries`, in place.
fn remove_under_key(entries: &mut Vec<(String, DocValue)>, key: &str, url: &String) -> (removed: bool)
    ensures
        (DocView::Dict(entries_doc_view(final(entries)@)), removed)
            == root_removed(DocView::Dict(entries_doc_view(old(entries)@)), key@, url@),
{
    let ghost e0 = entries@;
    proof {
        lemma_entries_doc_view(e0);
    }
    match find_key(entries, key) {
        None => false,
        Some(i) => {
            let (k, root) = entries.remove(i);
            let (new_root, removed) = chromium_remove_value(root, url);
            entries.insert(i, (k, new_root));
            proof {
                lemma_entries_doc_view(entries@);
                assert(entries@ =~= e0.update(i as int, (e0[i as int].0, new_root)));
                assert(entries_doc_view(entries@) =~= entries_doc_view(e0).update(i as int, (entries_doc_view(e0)[i as int].0, new_root@)));
            }
            removed
        },
    }
}

/// Removal from the root folders of a Chromium-family file.
fn remove_from_roots(roots: DocValue, url: &String) -> (r: (DocValue, bool))
    ensures
        (r.0@, r.1) == roots_removed(roots@, url@),
{
    match roots {
        DocValue::Dict(mut entries) => {
            if remove_under_key(&mut entries, "bookmark_bar", url) {
                return (DocValue::Dict(entries), true);
            }
            if remove_under_key(&mut entries, "other", url) {
                return (DocValue::Dict(entries), true);
            }
            if remove_under_key(&mut entries, "synced", url) {
                return (DocValue::Dict(entries), true);
            }
            let removed = remove_under_key(&mut entries, "workspaces_v2", url);
            (DocValue::Dict(entries), removed)
        },
        other => (other, false),
    }
}

/// Removes the bookmarks with URL `url` from a Chromium-family document: under
/// "roots", from the first of its root folders where some are found. Fails with
/// `MissingRoots` when the document has no "roots" and with `NotFound` when no
/// bookmark was removed, leaving the document as it was.
pub fn delete_chromium_bookmark(doc: &mut DocValue, url: &str) -> (r: Result<(), DeleteError>)
    ensures
        match chromium_document_removed(old(doc)@, url@) {
            Ok(d) => r is Ok && final(doc)@ == d,
            Err(e) => r == Err::<(), DeleteError>(e) && final(doc)@ == old(doc)@,
        },
{
    let url_string = String::from_str(url);
    let mut taken = DocValue::Other(0);
    std::mem::swap(doc, &mut taken);
    let ghost d0 = taken@;
    match taken {
        DocValue::Dict(mut entries) => {
            let ghost e0 = entries@;
            proof {
                lemma_entries_doc_view(e0);
            }
            match find_key(&entries, "roots") {
                None => {
                    *doc = DocValue::Dict(entries);
                    Err(DeleteError::MissingRoots)
                },
                Some(i) => {
                    let (k, roots) = entries.remove(i);
                    let ghost roots0 = roots@;
                    let (new_roots, removed) = remove_from_roots(roots, &url_string);
                    proof {
                        lemma_roots_unchanged(roots0, url@);
                    }
                    entries.insert(i, (k, new_roots));
                    proof {
                        lemma_entries_doc_view(entries@);
                        assert(entries@ =~= e0.update(i as int, (e0[i as int].0, new_roots)));
                        assert(entries_doc_view(entries@) =~= entries_doc_view(e0).update(i as int, (entries_doc_view(e0)[i as int].0, new_roots@)));
                        if !removed {
                            assert(entries_doc_view(entries@) =~= entries_doc_view(e0));
                        }
                    }
                    *doc = DocValue::Dict(entries);
                    if removed {
                        Ok(())
                    } else {
                        Err(DeleteError::NotFound)
                    }
                },
            }
        },
        other => {
            *doc = other;
            Err(DeleteError::MissingRoots)
        },
    }
}

// ── Chromium-family files ──────────────────────────────────────────────────

#[verifier::external_type_specification]
#[verifier::external_body]
pub struct ExJsonValue(serde_json::Value);

/// The document serde_json reads from the JSON text `text` (`None` when the text is
/// not JSON): objects become `Dict`s (keys in the order serde_json's map keeps
/// them), arrays `List`s, strings `Text`s, and every other value (null, boolean,
/// number) `Other(k)`, `k` counting such values in the order the parsed value
/// lists them.
pub uninterp spec fn json_document(text: Seq<char>) -> Option<DocView>;

/// What `serde_json::to_string_pretty` writes for `doc`, each `Other(k)` standing
/// for the `k`-th such value of the JSON text `text` (`None` when `text` is not
/// JSON or names no `k`-th value).
pub uninterp spec fn json_rendered(text: Seq<char>, doc: DocView) -> Option<Seq<char>>;

/// Turns a parsed JSON value into a document, setting aside the values that are
/// neither objects, arrays nor strings and leaving their places as tokens.
#[verifier::external_body]
fn json_value_to_doc(v: serde_json::Value, others: &mut Vec<Option<serde_json::Value>>) -> DocValue {
    match v {
        serde_json::Value::Object(map) => DocValue::Dict(map.into_iter().map(|(k, x)| (k, json_value_to_doc(x, others))).collect()),
        serde_json::Value::Array(items) => DocValue::List(items.into_iter().map(|x| json_value_to_doc(x, others)).collect()),
        serde_json::Value::String(text) => DocValue::Text(text),
        other => {
            others.push(Some(other));
            DocValue::Other((others.len() - 1) as u64)
        },
    }
}

/// Turns a document back into a JSON value, each token taking back its value.
#[verifier::external_body]
fn doc_to_json_value(doc: &DocValue, others: &mut Vec<Option<serde_json::Value>>) -> Option<serde_json::Value> {
    match doc {
        DocValue::Dict(entries) => entries.iter().map(|(k, x)| doc_to_json_value(x, others).map(|y| (k.clone(), y)))
            .collect::<Option<serde_json::Map<String, serde_json::Value>>>().map(serde_json::Value::Object),
        DocValue::List(items) => items.iter().map(|x| doc_to_json_value(x, others))
            .collect::<Option<Vec<serde_json::Value>>>().map(serde_json::Value::Array),
        DocValue::Text(text) => Some(serde_json::Value::String(text.clone())),
        DocValue::Other(k) => others.get_mut(*k as usize).and_then(|slot| slot.take()),
    }
}

/// Calls `serde_json::from_str` into `serde_json::Value` and converts the value.
/// Trusted: the result is the document `json_document(text@)`, which depends on the
/// text alone; the error is serde_json's message, of which nothing is stated.
#[verifier::external_body]
fn parse_json_document(text: &str) -> (r: Result<DocValue, String>)
    ensures
        match r {
            Ok(d) => json_document(text@) == Some(d@),
            Err(_) => json_document(text@) is None,
        },
{
    match serde_json::from_str::<serde_json::Value>(text) {
        Ok(v) => Ok(json_value_to_doc(v, &mut Vec::new())),
        Err(e) => Err(format!("{}", e)),
    }
}

/// Calls `serde_json::to_string_pretty` on `doc`, with the values its tokens stand
/// for taken from the JSON text `text`.
/// Trusted: the result is `json_rendered(text@, doc@)`, which depends on the text and
/// the document alone; the error message is not stated.
#[verifier::external_body]
fn render_json_document(text: &str, doc: &DocValue) -> (r: Result<String, String>)
    ensures
        match r {
            Ok(s) => json_rendered(text@, doc@) == Some(s@),
            Err(_) => json_rendered(text@, doc@) is None,
        },
{
    let mut others = Vec::new();
    let parsed = serde_json::from_str::<serde_json::Value>(text).map_err(|e| format!("{}", e))?;
    let _ = json_value_to_doc(parsed, &mut others);
    let value = doc_to_json_value(doc, &mut others).ok_or_else(|| String::from("the document does not match its text"))?;
    serde_json::to_string_pretty(&value).map_err(|e| format!("{}", e))
}

/// Why the bookmarks could not be removed from a Chromium-family file's text.
#[derive(Debug, PartialEq, Eq)]
pub enum ChromiumTextError {
    /// The text is not JSON; serde_json's message.
    Parse(String),
    /// The document holds no such bookmark, or has no "roots".
    Delete(DeleteError),
    /// The edited document could not be written as JSON; serde_json's message.
    Serialize(String),
}

pub open spec fn chromium_text_error_text(e: ChromiumTextError) -> Seq<char> {
    match e {
        ChromiumTextError::Parse(m) => "Failed to parse bookmarks: "@ + m@,
        ChromiumTextError::Delete(d) => delete_error_text(d),
        ChromiumTextError::Serialize(m) => "Failed to serialize: "@ + m@,
    }
}

impl ChromiumTextError {
    /// The message reported for the error.
    pub fn message(&self) -> (s: String)
        ensures
            s@ == chromium_text_error_text(*self),
    {
        match self {
            ChromiumTextError::Parse(m) => String::from_str("Failed to parse bookmarks: ").concat(m.as_str()),
            ChromiumTextError::Delete(d) => d.message(),
            ChromiumTextError::Serialize(m) => String::from_str("Failed to serialize: ").concat(m.as_str()),
        }
    }
}

/// Removes the bookmarks with URL `url` from the text of a Chromium-family
/// `Bookmarks` file: reads it as JSON, removes as `delete_chromium_bookmark` does,
/// and gives the edited document back as pretty-printed JSON.
pub fn delete_chromium_text(text: &str, url: &str) -> (r: Result<String, ChromiumTextError>)
    ensures
        match json_document(text@) {
            None => r matches Err(ChromiumTextError::Parse(_)),
            Some(d) => match chromium_document_removed(d, url@) {
                Err(e) => r == Err::<String, ChromiumTextError>(ChromiumTextError::Delete(e)),
                Ok(edited) => match json_rendered(text@, edited) {
                    Some(out) => r matches Ok(s) && s@ == out,
                    None => r matches Err(ChromiumTextError::Serialize(_)),
                },
            },
        },
{
    let mut doc = match parse_json_document(text) {
        Ok(d) => d,
        Err(e) => {
            return Err(ChromiumTextError::Parse(e));
        },
    };
    match delete_chromium_bookmark(&mut doc, url) {
        Err(e) => Err(ChromiumTextError::Delete(e)),
        Ok(()) => match render_json_document(text, &doc) {
            Ok(s) => Ok(s),
            Err(e) => Err(ChromiumTextError::Serialize(e)),
        },
    }
}

/// When nothing is removed under one root folder, the roots are left as they were.
pub proof fn lemma_root_unchanged(roots: DocView, key: Seq<char>, url: Seq<char>)
    ensures
        !root_removed(roots, key, url).1 ==> root_removed(roots, key, url).0 == roots,
{
    if let DocView::Dict(entries) = roots {
        if has_key(entries, key) {
            let i = key_index(entries, key);
            lemma_key_index(entries, key);
            lemma_chromium_unchanged(entries[i].1, url);
            assert(entries.update(i, (entries[i].0, entries[i].1)) =~= entries);
        }
    }
}

/// When nothing is removed from any root folder, the roots are left as they were.
pub proof fn lemma_roots_unchanged(roots: DocView, url: Seq<char>)
    ensures
        !roots_removed(roots, url).1 ==> roots_removed(roots, url).0 == roots,
{
    lemma_root_unchanged(roots, "bookmark_bar"@, url);
    let a = root_removed(roots, "bookmark_bar"@, url);
    lemma_root_unchanged(a.0, "other"@, url);
    let b = root_removed(a.0, "other"@, url);
    lemma_root_unchanged(b.0, "synced"@, url);
    let c = root_removed(b.0, "synced"@, url);
    lemma_root_unchanged(c.0, "workspaces_v2"@, url);
}

/// The Safari document `doc` after removing the bookmarks with URL `url`, or why
/// nothing was removed.
pub open spec fn safari_document_removed(doc: DocView, url: Seq<char>) -> Result<DocView, DeleteError> {
    match doc {
        DocView::Dict(entries) => if has_key(entries, "Children"@) {
            let i = key_index(entries, "Children"@);
            match entries[i].1 {
                DocView::List(items) => {
                    let r = safari_removed(items, url);
                    if r.1 {
                        Ok(DocView::Dict(entries.update(i, (entries[i].0, DocView::List(r.0)))))
                    } else {
                        Err(DeleteError::NotFound)
                    }
                },
                _ => Err(DeleteError::ChildrenNotArray),
            }
        } else {
            Err(DeleteError::MissingChildren)
        },
        _ => Err(DeleteError::NotDictionary),
    }
}

/// Removes the bookmarks with URL `url` from Safari's document: from its top-level
/// "Children" list or, recursively, from the first folder where some are found.
pub fn delete_safari_bookmark(doc: DocValue, url: &str) -> (r: Result<DocValue, DeleteError>)
    ensures
        match safari_document_removed(doc@, url@) {
            Ok(d) => r matches Ok(v) && v@ == d,
            Err(e) => r matches Err(e2) && e2 == e,
        },
{
    match doc {
        DocValue::Dict(mut entries) => {
            let ghost e0 = entries@;
            proof {
                lemma_entries_doc_view(e0);
            }
            match find_key(&entries, "Children") {
                None => Err(DeleteError::MissingChildren),
                Some(i) => {
                    let (k, children) = entries.remove(i);
                    match children {
                        DocValue::List(mut items) => {
                            if remove_safari_entry(&mut items, url) {
                                entries.insert(i, (k, DocValue::List(items)));
                                proof {
                                    lemma_entries_doc_view(entries@);
                                    assert(entries@ =~= e0.update(i as int, (e0[i as int].0, DocValue::List(items))));
                                    assert(entries_doc_view(entries@) =~= entries_doc_view(e0).update(i as int, (entries_doc_view(e0)[i as int].0, DocView::List(items_doc_view(items@)))));
                                }
                                Ok(DocValue::Dict(entries))
                            } else {
                                Err(DeleteError::NotFound)
                            }
                        },
                        _ => Err(DeleteError::ChildrenNotArray),
                    }
                },
            }
        },
        _ => Err(DeleteError::NotDictionary),
    }
}

// ── Requests and locations ─────────────────────────────────────────────────

/// A delete request "source<TAB>url" split at its first tab into the browser's
/// name and the URL; `None` when it has no tab.
pub fn parse_delete_arg(arg: &str) -> (r: Option<(String, String)>)
    ensures
        match r {
            Some((source, url)) => {
                &&& source@.len() < arg@.len()
                &&& arg@[source@.len() as int] == '\t'
                &&& source@ == arg@.take(source@.len() as int)
                &&& url@ == arg@.skip(source@.len() as int + 1)
                &&& forall|j: int| 0 <= j < source@.len() ==> arg@[j] != '\t'
            },
            None => forall|j: int| 0 <= j < arg@.len() ==> arg@[j] != '\t',
        },
{
    let chars = chars_of(arg);
    match find_char(chars.as_slice(), '\t') {
        Some(i) => {
            assert(i < chars.len());
            let source = string_of_range(chars.as_slice(), 0, i);
            let url = string_of_range(chars.as_slice(), i + 1, chars.len());
            assert(arg@.take(i as int) =~= chars@.subrange(0, i as int));
            assert(arg@.skip(i + 1) =~= chars@.subrange(i + 1, chars@.len() as int));
            Some((source, url))
        },
        None => None,
    }
}

/// The environment variable that can override where a browser's bookmark file is:
/// the browser's name upper-cased, spaces written as `_`, then `_BOOKMARKS_PATH`.
pub open spec fn path_env_var(source: Seq<char>) -> Seq<char> {
    replaced(uppercase_of(source), " "@, "_"@) + "_BOOKMARKS_PATH"@
}

pub fn bookmarks_path_env_var(source: &str) -> (name: String)
    ensures
        name@ == path_env_var(source@),
{
    let upper = to_uppercase(source);
    proof {
        reveal_strlit(" ");
    }
    let replaced_chars = replace_all(chars_of(upper.as_str()).as_slice(), chars_of(" ").as_slice(), chars_of("_").as_slice());
    proof {
        reveal_strlit(" ");
    }
    string_from_chars(replaced_chars.as_slice()).concat("_BOOKMARKS_PATH")
}

/// Where a browser's bookmark file is.
#[derive(Debug, PartialEq, Eq)]
pub enum BookmarkPath {
    /// An absolute path.
    Absolute(String),
    /// A path relative to the home directory.
    InHome(String),
}

/// The location of `source`'s bookmark file: the override when one is given
/// (absolute when it starts with `/`, else under the home directory), else the
/// browser's usual file under the home directory, else nothing for an unknown browser.
pub open spec fn bookmark_path_spec(source: Seq<char>, custom: Option<Seq<char>>) -> Option<(bool, Seq<char>)> {
    match custom {
        Some(p) => Some((p.len() > 0 && p[0] == '/', p)),
        None => if exists|i: int| 0 <= i < provider_table().len() && provider_table()[i].0@ == source {
            let i = choose|i: int| 0 <= i < provider_table().len() && provider_table()[i].0@ == source
                && forall|j: int| 0 <= j < i ==> provider_table()[j].0@ != source;
            Some((false, provider_table()[i].1@))
        } else {
            None
        },
    }
}

pub fn find_bookmark_path(source: &str, custom_path: Option<String>) -> (r: Option<BookmarkPath>)
    ensures
        match bookmark_path_spec(source@, match custom_path { Some(p) => Some(p@), None => None }) {
            Some((true, p)) => r matches Some(BookmarkPath::Absolute(q)) && q@ == p,
            Some((false, p)) => r matches Some(BookmarkPath::InHome(q)) && q@ == p,
            None => r is None,
        },
{
    if let Some(custom) = custom_path {
        let chars = chars_of(custom.as_str());
        if chars.len() > 0 && chars[0] == '/' {
            return Some(BookmarkPath::Absolute(custom));
        } else {
            return Some(BookmarkPath::InHome(custom));
        }
    }
    let providers = bookmark_providers();
    let wanted = String::from_str(source);
    for i in 0..providers.len()
        invariant
            providers@ == provider_table(),
            wanted@ == source@,
            custom_path is None,
            forall|j: int| 0 <= j < i ==> provider_table()[j].0@ != source@,
    {
        let (name, path) = providers[i];
        if String::from_str(name) == wanted {
            let ghost k = choose|k: int| 0 <= k < provider_table().len() && provider_table()[k].0@ == source@
                && forall|j: int| 0 <= j < k ==> provider_table()[j].0@ != source@;
            assert(0 <= i < provider_table().len() && provider_table()[i as int].0@ == source@
                && forall|j: int| 0 <= j < i ==> provider_table()[j].0@ != source@);
            assert(exists|m: int| 0 <= m < provider_table().len() && provider_table()[m].0@ == source@);
            assert(k == i) by {
                if k < i {
                } else if i < k {
                }
            }
            assert(path == provider_table()[i as int].1);
            return Some(BookmarkPath::InHome(String::from_str(path)));
        }
    }
    None
}

/// How a delete request ended, as reported back to the user.
#[derive(Debug, PartialEq, Eq)]
pub enum DeleteReport {
    /// The home directory is not known.
    NoHome,
    /// The request names a browser with neither a known file nor an override.
    UnknownSource(String),
    /// The browser's bookmark file does not exist.
    FileNotFound(String),
    /// The bookmark was removed from the named browser.
    Deleted(String),
    /// Reading, changing or writing the document failed, for the given reason.
    Failed(String),
}

pub open spec fn report_text(r: DeleteReport) -> Seq<char> {
    match r {
        DeleteReport::NoHome => "Error: Cannot determine HOME directory"@,
        DeleteReport::UnknownSource(source) => "Error: Unknown browser '"@ + source@ + "'"@,
        DeleteReport::FileNotFound(source) => "Error: Bookmark file not found for "@ + source@,
        DeleteReport::Deleted(source) => "Deleted from "@ + source@,
        DeleteReport::Failed(reason) => "Error: "@ + reason@,
    }
}

impl DeleteReport {
    /// The line shown for the report.
    pub fn text(&self) -> (s: String)
        ensures
            s@ == report_text(*self),
    {
        match self {
            DeleteReport::NoHome => String::from_str("Error: Cannot determine HOME directory"),
            DeleteReport::UnknownSource(source) => String::from_str("Error: Unknown browser '").concat(source.as_str()).concat("'"),
            DeleteReport::FileNotFound(source) => String::from_str("Error: Bookmark file not found for ").concat(source.as_str()),
            DeleteReport::Deleted(source) => String::from_str("Deleted from ").concat(source.as_str()),
            DeleteReport::Failed(reason) => String::from_str("Error: ").concat(reason.as_str()),
        }
    }
}

/// The format of a browser's bookmark file.
#[derive(Debug, Clone, Copy, PartialEq, Eq, Structural)]
pub enum BookmarkFormat {
    /// Safari's property list.
    Safari,
    /// The JSON file of the Chromium family.
    Chromium,
}

pub fn bookmark_format(source: &str) -> (f: BookmarkFormat)
    ensures
        f == (if source@ == "Safari"@ { BookmarkFormat::Safari } else { BookmarkFormat::Chromium }),
{
    if String::from_str(source) == String::from_str("Safari") {
        BookmarkFormat::Safari
    } else {
        BookmarkFormat::Chromium
    }
}

proof fn lemma_root_removed_count(roots: DocView, key: Seq<char>, url: Seq<char>)
    requires
        key != "url"@,
    ensures
        root_removed(roots, key, url).1 ==> link_count(root_removed(roots, key, url).0, "url"@, url) < link_count(roots, "url"@, url),
{
    if let DocView::Dict(entries) = roots {
        if has_key(entries, key) {
            let i = key_index(entries, key);
            lemma_key_index(entries, key);
            lemma_chromium_removed_count(entries[i].1, url);
            let r = chromium_removed(entries[i].1, url);
            lemma_dict_count_update(entries, i, r.0, "url"@, url);
        }
    }
}

/// A successful removal from a Chromium-family document removes links: the
/// document holds fewer bookmarks with that URL than before.
pub proof fn theorem_chromium_delete_removes(doc: DocView, url: Seq<char>)
    ensures
        chromium_document_removed(doc, url) matches Ok(d) ==> link_count(d, "url"@, url) < link_count(doc, "url"@, url),
{
    let key = "url"@;
    reveal_strlit("url");
    reveal_strlit("bookmark_bar");
    reveal_strlit("other");
    reveal_strlit("synced");
    reveal_strlit("workspaces_v2");
    reveal_strlit("roots");
    assert("bookmark_bar"@ != key && "other"@ != key && "synced"@ != key && "workspaces_v2"@ != key && "roots"@ != key) by {
        assert("bookmark_bar"@.len() != key.len());
        assert("other"@.len() != key.len());
        assert("synced"@.len() != key.len());
        assert("workspaces_v2"@.len() != key.len());
        assert("roots"@.len() != key.len());
    }
    if let Some(roots) = get_field(doc, "roots"@) {
        lemma_root_removed_count(roots, "bookmark_bar"@, url);
        lemma_root_unchanged(roots, "bookmark_bar"@, url);
        let a = root_removed(roots, "bookmark_bar"@, url);
        lemma_root_removed_count(a.0, "other"@, url);
        lemma_root_unchanged(a.0, "other"@, url);
        let b = root_removed(a.0, "other"@, url);
        lemma_root_removed_count(b.0, "synced"@, url);
        lemma_root_unchanged(b.0, "synced"@, url);
        let c = root_removed(b.0, "synced"@, url);
        lemma_root_removed_count(c.0, "workspaces_v2"@, url);
        let r = roots_removed(roots, url);
        if r.1 {
            assert(link_count(r.0, key, url) < link_count(roots, key, url));
            if let DocView::Dict(entries) = doc {
                lemma_key_index(entries, "roots"@);
                let i = key_index(entries, "roots"@);
                lemma_dict_count_update(entries, i, r.0, key, url);
            }
        }
    }
}

/// A successful removal from Safari's document removes links: the document holds
/// fewer bookmarks with that URL than before.
pub proof fn theorem_safari_delete_removes(doc: DocView, url: Seq<char>)
    ensures
        safari_document_removed(doc, url) matches Ok(d) ==> link_count(d, "URLString"@, url) < link_count(doc, "URLString"@, url),
{
    let key = "URLString"@;
    if let DocView::Dict(entries) = doc {
        if has_key(entries, "Children"@) {
            let i = key_index(entries, "Children"@);
            lemma_key_index(entries, "Children"@);
            if let DocView::List(items) = entries[i].1 {
                assert(entries[i].0 != key) by {
                    reveal_strlit("URLString");
                    reveal_strlit("Children");
                    assert(entries[i].0.len() != key.len());
                }
                lemma_safari_removed_count(items, url);
                let r = safari_removed(items, url);
                lemma_dict_count_update(entries, i, DocView::List(r.0), key, url);
            }
        }
    }
}

// ── When a removal succeeds ────────────────────────────────────────────────

/// The bookmarks with URL `url` that a Chromium-family removal can reach from `v`:
/// in the "children" list of `v`, the children whose "url" is `url`, and those
/// reachable from each child.
pub open spec fn chromium_reachable(v: DocView, url: Seq<char>) -> nat
    decreases v,
{
    match v {
        DocView::Dict(entries) => if has_key(entries, "children"@) {
            let i = key_index(entries, "children"@);
            proof {
                lemma_key_index(entries, "children"@);
            }
            match entries[i].1 {
                DocView::List(items) => chromium_reachable_items(items, url),
                _ => 0,
            }
        } else {
            0
        },
        _ => 0,
    }
}

/// `chromium_reachable` over the items of a list, counting the items that link too.
pub open spec fn chromium_reachable_items(items: Seq<DocView>, url: Seq<char>) -> nat
    decreases items,
{
    if items.len() == 0 {
        0
    } else {
        let own: nat = if links_to(items.last(), "url"@, url) { 1 } else { 0 };
        chromium_reachable_items(items.drop_last(), url) + own + chromium_reachable(items.last(), url)
    }
}

proof fn lemma_chromium_items_positive(items: Seq<DocView>, url: Seq<char>)
    ensures
        chromium_reachable_items(items, url) > 0 <==> (any_links_to(items, "url"@, url)
            || exists|i: int| 0 <= i < items.len() && #[trigger] chromium_reachable(items[i], url) > 0),
    decreases items.len(),
{
    if items.len() > 0 {
        let init = items.drop_last();
        lemma_chromium_items_positive(init, url);
        let n = items.len() - 1;
        assert(items[n] == items.last());
        if links_to(items.last(), "url"@, url) {
            assert(links_to(items[n], "url"@, url));
        }
        if chromium_reachable(items.last(), url) > 0 {
            assert(chromium_reachable(items[n], url) > 0);
        }
        if any_links_to(init, "url"@, url) {
            let i = choose|i: int| 0 <= i < init.len() && #[trigger] links_to(init[i], "url"@, url);
            assert(links_to(items[i], "url"@, url));
        }
        if exists|i: int| 0 <= i < init.len() && #[trigger] chromium_reachable(init[i], url) > 0 {
            let i = choose|i: int| 0 <= i < init.len() && #[trigger] chromium_reachable(init[i], url) > 0;
            assert(chromium_reachable(items[i], url) > 0);
        }
        if any_links_to(items, "url"@, url) {
            let i = choose|i: int| 0 <= i < items.len() && #[trigger] links_to(items[i], "url"@, url);
            if i < n {
                assert(links_to(init[i], "url"@, url));
            }
        }
        if exists|i: int| 0 <= i < items.len() && #[trigger] chromium_reachable(items[i], url) > 0 {
            let i = choose|i: int| 0 <= i < items.len() && #[trigger] chromium_reachable(items[i], url) > 0;
            if i < n {
                assert(chromium_reachable(init[i], url) > 0);
            }
        }
    }
}

/// A removal from a Chromium-family folder succeeds exactly when a bookmark with
/// the URL is reachable from it.
pub proof fn theorem_chromium_removed_iff(v: DocView, url: Seq<char>)
    ensures
        chromium_removed(v, url).1 <==> chromium_reachable(v, url) > 0,
    decreases v,
{
    if let DocView::Dict(entries) = v {
        if has_key(entries, "children"@) {
            let i = key_index(entries, "children"@);
            lemma_key_index(entries, "children"@);
            if let DocView::List(items) = entries[i].1 {
                lemma_unlinked_len(items, "url"@, url);
                lemma_chromium_items_positive(items, url);
                assert(decreases_to!(v => entries));
                assert(decreases_to!(entries => entries[i]));
                assert(decreases_to!(entries[i] => entries[i].1));
                lemma_chromium_first_iff(items, url);
            }
        }
    }
}

proof fn lemma_chromium_first_iff(items: Seq<DocView>, url: Seq<char>)
    ensures
        chromium_removed_first(items, url).1 <==>
            exists|i: int| 0 <= i < items.len() && #[trigger] chromium_reachable(items[i], url) > 0,
    decreases items,
{
    if items.len() > 0 {
        assert(decreases_to!(items => items[0]));
        theorem_chromium_removed_iff(items[0], url);
        let rest = items.drop_first();
        lemma_chromium_first_iff(rest, url);
        if exists|i: int| 0 <= i < rest.len() && #[trigger] chromium_reachable(rest[i], url) > 0 {
            let i = choose|i: int| 0 <= i < rest.len() && #[trigger] chromium_reachable(rest[i], url) > 0;
            assert(chromium_reachable(items[i + 1], url) > 0);
        }
        if exists|i: int| 0 <= i < items.len() && #[trigger] chromium_reachable(items[i], url) > 0 {
            let i = choose|i: int| 0 <= i < items.len() && #[trigger] chromium_reachable(items[i], url) > 0;
            if i > 0 {
                assert(chromium_reachable(rest[i - 1], url) > 0);
            }
        }
    }
}

/// Whether the root folder `key` of `roots` exists and reaches a bookmark with URL `url`.
pub open spec fn root_reaches(roots: DocView, key: Seq<char>, url: Seq<char>) -> bool {
    match get_field(roots, key) {
        Some(root) => chromium_reachable(root, url) > 0,
        None => false,
    }
}

/// Deleting from a Chromium-family document succeeds exactly when it has "roots"
/// and one of its root folders ("bookmark_bar", "other", "synced", "workspaces_v2")
/// reaches a bookmark with the URL.
pub proof fn theorem_chromium_delete_succeeds_iff(doc: DocView, url: Seq<char>)
    ensures
        chromium_document_removed(doc, url) is Ok <==> (get_field(doc, "roots"@) matches Some(roots) && (
            root_reaches(roots, "bookmark_bar"@, url) || root_reaches(roots, "other"@, url)
            || root_reaches(roots, "synced"@, url) || root_reaches(roots, "workspaces_v2"@, url))),
{
    if let Some(roots) = get_field(doc, "roots"@) {
        lemma_root_unchanged(roots, "bookmark_bar"@, url);
        lemma_root_unchanged(roots, "other"@, url);
        lemma_root_unchanged(roots, "synced"@, url);
        if let Some(r) = get_field(roots, "bookmark_bar"@) {
            theorem_chromium_removed_iff(r, url);
        }
        if let Some(r) = get_field(roots, "other"@) {
            theorem_chromium_removed_iff(r, url);
        }
        if let Some(r) = get_field(roots, "synced"@) {
            theorem_chromium_removed_iff(r, url);
        }
        if let Some(r) = get_field(roots, "workspaces_v2"@) {
            theorem_chromium_removed_iff(r, url);
        }
    }
}

/// The bookmarks with URL `url` that a Safari removal can reach from `items`: the
/// items whose "URLString" is `url`, and those reachable in each item's "Children".
pub open spec fn safari_reachable_items(items: Seq<DocView>, url: Seq<char>) -> nat
    decreases items,
{
    if items.len() == 0 {
        0
    } else {
        let own: nat = if links_to(items.last(), "URLString"@, url) { 1 } else { 0 };
        safari_reachable_items(items.drop_last(), url) + own + safari_reachable_in(items.last(), url)
    }
}

/// `safari_reachable_items` of the "Children" list of a dictionary, when it has one.
pub open spec fn safari_reachable_in(child: DocView, url: Seq<char>) -> nat
    decreases child,
{
    match child {
        DocView::Dict(entries) => if has_key(entries, "Children"@) {
            let i = key_index(entries, "Children"@);
            proof {
                lemma_key_index(entries, "Children"@);
            }
            match entries[i].1 {
                DocView::List(inner) => safari_reachable_items(inner, url),
                _ => 0,
            }
        } else {
            0
        },
        _ => 0,
    }
}

proof fn lemma_safari_items_positive(items: Seq<DocView>, url: Seq<char>)
    ensures
        safari_reachable_items(items, url) > 0 <==> (any_links_to(items, "URLString"@, url)
            || exists|i: int| 0 <= i < items.len() && #[trigger] safari_reachable_in(items[i], url) > 0),
    decreases items.len(),
{
    if items.len() > 0 {
        let init = items.drop_last();
        lemma_safari_items_positive(init, url);
        let n = items.len() - 1;
        assert(items[n] == items.last());
        if links_to(items.last(), "URLString"@, url) {
            assert(links_to(items[n], "URLString"@, url));
        }
        if safari_reachable_in(items.last(), url) > 0 {
            assert(safari_reachable_in(items[n], url) > 0);
        }
        if any_links_to(init, "URLString"@, url) {
            let i = choose|i: int| 0 <= i < init.len() && #[trigger] links_to(init[i], "URLString"@, url);
            assert(links_to(items[i], "URLString"@, url));
        }
        if exists|i: int| 0 <= i < init.len() && #[trigger] safari_reachable_in(init[i], url) > 0 {
            let i = choose|i: int| 0 <= i < init.len() && #[trigger] safari_reachable_in(init[i], url) > 0;
            assert(safari_reachable_in(items[i], url) > 0);
        }
        if any_links_to(items, "URLString"@, url) {
            let i = choose|i: int| 0 <= i < items.len() && #[trigger] links_to(items[i], "URLString"@, url);
            if i < n {
                assert(links_to(init[i], "URLString"@, url));
            }
        }
        if exists|i: int| 0 <= i < items.len() && #[trigger] safari_reachable_in(items[i], url) > 0 {
            let i = choose|i: int| 0 <= i < items.len() && #[trigger] safari_reachable_in(items[i], url) > 0;
            if i < n {
                assert(safari_reachable_in(init[i], url) > 0);
            }
        }
    }
}

/// A removal from a Safari list succeeds exactly when a bookmark with the URL is
/// reachable from it.
pub proof fn theorem_safari_removed_iff(items: Seq<DocView>, url: Seq<char>)
    ensures
        safari_removed(items, url).1 <==> safari_reachable_items(items, url) > 0,
    decreases items, 1nat,
{
    lemma_unlinked_len(items, "URLString"@, url);
    lemma_safari_items_positive(items, url);
    lemma_safari_nested_iff(items, url);
}

proof fn lemma_safari_nested_iff(items: Seq<DocView>, url: Seq<char>)
    ensures
        safari_removed_nested(items, url).1 <==>
            exists|i: int| 0 <= i < items.len() && #[trigger] safari_reachable_in(items[i], url) > 0,
    decreases items, 0nat,
{
    if items.len() > 0 {
        assert(decreases_to!(items => items[0]));
        lemma_safari_in_iff(items[0], url);
        let rest = items.drop_first();
        lemma_safari_nested_iff(rest, url);
        if exists|i: int| 0 <= i < rest.len() && #[trigger] safari_reachable_in(rest[i], url) > 0 {
            let i = choose|i: int| 0 <= i < rest.len() && #[trigger] safari_reachable_in(rest[i], url) > 0;
            assert(safari_reachable_in(items[i + 1], url) > 0);
        }
        if exists|i: int| 0 <= i < items.len() && #[trigger] safari_reachable_in(items[i], url) > 0 {
            let i = choose|i: int| 0 <= i < items.len() && #[trigger] safari_reachable_in(items[i], url) > 0;
            if i > 0 {
                assert(safari_reachable_in(rest[i - 1], url) > 0);
            }
        }
    }
}

proof fn lemma_safari_in_iff(child: DocView, url: Seq<char>)
    ensures
        safari_removed_in(child, url).1 <==> safari_reachable_in(child, url) > 0,
    decreases child, 2nat,
{
    if let DocView::Dict(entries) = child {
        if has_key(entries, "Children"@) {
            let i = key_index(entries, "Children"@);
            lemma_key_index(entries, "Children"@);
            if let DocView::List(inner) = entries[i].1 {
                assert(decreases_to!(child => entries));
                assert(decreases_to!(entries => entries[i]));
                assert(decreases_to!(entries[i] => entries[i].1));
                theorem_safari_removed_iff(inner, url);
            }
        }
    }
}

/// Deleting from Safari's document succeeds exactly when it is a dictionary whose
/// "Children" is a list from which a bookmark with the URL is reachable.
pub proof fn theorem_safari_delete_succeeds_iff(doc: DocView, url: Seq<char>)
    ensures
        safari_document_removed(doc, url) is Ok <==> (doc matches DocView::Dict(entries)
            && get_field(doc, "Children"@) matches Some(DocView::List(items))
            && safari_reachable_items(items, url) > 0),
{
    if let DocView::Dict(entries) = doc {
        if has_key(entries, "Children"@) {
            if let DocView::List(items) = entries[key_index(entries, "Children"@)].1 {
                theorem_safari_removed_iff(items, url);
            }
        }
    }
}

// ── What a removal keeps ───────────────────────────────────────────────────

/// The number of nodes of `v` that do not lie at or below a map whose `key` holds
/// the text `url`: what a removal of that URL must leave in place.
pub open spec fn kept_count(v: DocView, key: Seq<char>, url: Seq<char>) -> nat
    decreases v,
{
    if links_to(v, key, url) {
        0
    } else {
        1 + match v {
            DocView::Dict(entries) => fields_kept_count(entries, key, url),
            DocView::List(items) => items_kept_count(items, key, url),
            _ => 0,
        }
    }
}

/// `kept_count` summed over the items of a list.
pub open spec fn items_kept_count(items: Seq<DocView>, key: Seq<char>, url: Seq<char>) -> nat
    decreases items,
{
    if items.len() == 0 {
        0
    } else {
        items_kept_count(items.drop_last(), key, url) + kept_count(items.last(), key, url)
    }
}

/// `kept_count` summed over the values of a map.
pub open spec fn fields_kept_count(entries: Seq<(Seq<char>, DocView)>, key: Seq<char>, url: Seq<char>) -> nat
    decreases entries,
{
    if entries.len() == 0 {
        0
    } else {
        fields_kept_count(entries.drop_last(), key, url) + kept_count(entries.last().1, key, url)
    }
}

proof fn lemma_items_kept_update(items: Seq<DocView>, i: int, nv: DocView, key: Seq<char>, url: Seq<char>)
    requires
        0 <= i < items.len(),
        kept_count(nv, key, url) == kept_count(items[i], key, url),
    ensures
        items_kept_count(items.update(i, nv), key, url) == items_kept_count(items, key, url),
    decreases items.len(),
{
    let up = items.update(i, nv);
    if i < items.len() - 1 {
        assert(up.drop_last() =~= items.drop_last().update(i, nv));
        lemma_items_kept_update(items.drop_last(), i, nv, key, url);
        assert(up.last() == items.last());
    } else {
        assert(up.drop_last() =~= items.drop_last());
    }
}

proof fn lemma_fields_kept_update(entries: Seq<(Seq<char>, DocView)>, i: int, nv: DocView, key: Seq<char>, url: Seq<char>)
    requires
        0 <= i < entries.len(),
        kept_count(nv, key, url) == kept_count(entries[i].1, key, url),
    ensures
        fields_kept_count(entries.update(i, (entries[i].0, nv)), key, url) == fields_kept_count(entries, key, url),
    decreases entries.len(),
{
    let up = entries.update(i, (entries[i].0, nv));
    if i < entries.len() - 1 {
        assert(up.drop_last() =~= entries.drop_last().update(i, (entries[i].0, nv)));
        lemma_fields_kept_update(entries.drop_last(), i, nv, key, url);
        assert(up.last() == entries.last());
    } else {
        assert(up.drop_last() =~= entries.drop_last());
    }
}

proof fn lemma_items_kept_concat(a: Seq<DocView>, b: Seq<DocView>, key: Seq<char>, url: Seq<char>)
    ensures
        items_kept_count(a + b, key, url) == items_kept_count(a, key, url) + items_kept_count(b, key, url),
    decreases b.len(),
{
    if b.len() == 0 {
        assert(a + b =~= a);
    } else {
        assert((a + b).drop_last() =~= a + b.drop_last());
        lemma_items_kept_concat(a, b.drop_last(), key, url);
    }
}

/// Dropping the items that link to `url` drops nothing that is kept.
proof fn lemma_unlinked_kept(items: Seq<DocView>, key: Seq<char>, url: Seq<char>)
    ensures
        items_kept_count(unlinked(items, key, url), key, url) == items_kept_count(items, key, url),
    decreases items.len(),
{
    if items.len() > 0 {
        let prev = unlinked(items.drop_last(), key, url);
        lemma_unlinked_kept(items.drop_last(), key, url);
        if !links_to(items.last(), key, url) {
            let kept = prev.push(items.last());
            assert(kept.drop_last() =~= prev);
            assert(kept.last() == items.last());
            assert(items_kept_count(kept, key, url) == items_kept_count(prev, key, url) + kept_count(items.last(), key, url));
        } else {
            assert(kept_count(items.last(), key, url) == 0);
        }
    }
}

/// Replacing, in a map, a value not under `key` by one with the same kept count
/// keeps the map's kept count.
proof fn lemma_dict_kept_update(entries: Seq<(Seq<char>, DocView)>, i: int, nv: DocView, key: Seq<char>, url: Seq<char>)
    requires
        0 <= i < entries.len(),
        entries[i].0 != key,
        kept_count(nv, key, url) == kept_count(entries[i].1, key, url),
    ensures
        kept_count(DocView::Dict(entries.update(i, (entries[i].0, nv))), key, url)
            == kept_count(DocView::Dict(entries), key, url),
{
    lemma_links_after_update(entries, i, nv, key, url);
    lemma_fields_kept_update(entries, i, nv, key, url);
}

/// A removal from a Chromium-family folder takes away only the bookmarks that link
/// to the URL (with what lies below them): every other node stays.
pub proof fn theorem_chromium_removal_keeps_others(v: DocView, url: Seq<char>)
    ensures
        kept_count(chromium_removed(v, url).0, "url"@, url) == kept_count(v, "url"@, url),
    decreases v,
{
    let key = "url"@;
    if let DocView::Dict(entries) = v {
        if has_key(entries, "children"@) {
            let i = key_index(entries, "children"@);
            lemma_key_index(entries, "children"@);
            if let DocView::List(items) = entries[i].1 {
                assert(entries[i].0 != key) by {
                    reveal_strlit("url");
                    reveal_strlit("children");
                    assert(entries[i].0.len() != key.len());
                }
                let kept = unlinked(items, key, url);
                if kept.len() < items.len() {
                    lemma_unlinked_kept(items, key, url);
                    lemma_dict_kept_update(entries, i, DocView::List(kept), key, url);
                } else {
                    assert(decreases_to!(v => entries));
                    assert(decreases_to!(entries => entries[i]));
                    assert(decreases_to!(entries[i] => entries[i].1));
                    lemma_chromium_first_keeps(items, url);
                    let r = chromium_removed_first(items, url);
                    lemma_dict_kept_update(entries, i, DocView::List(r.0), key, url);
                }
            }
        }
    }
}

proof fn lemma_chromium_first_keeps(items: Seq<DocView>, url: Seq<char>)
    ensures
        items_kept_count(chromium_removed_first(items, url).0, "url"@, url) == items_kept_count(items, "url"@, url),
    decreases items,
{
    let key = "url"@;
    if items.len() > 0 {
        assert(decreases_to!(items => items[0]));
        theorem_chromium_removal_keeps_others(items[0], url);
        let r = chromium_removed(items[0], url);
        if r.1 {
            lemma_items_kept_update(items, 0, r.0, key, url);
        } else {
            lemma_chromium_unchanged(items[0], url);
            lemma_chromium_first_keeps(items.drop_first(), url);
            let rest = chromium_removed_first(items.drop_first(), url);
            lemma_items_kept_concat(seq![r.0], rest.0, key, url);
            lemma_items_kept_concat(seq![items[0]], items.drop_first(), key, url);
            assert(seq![items[0]] + items.drop_first() =~= items);
            assert(seq![r.0].drop_last() =~= Seq::<DocView>::empty());
        }
    }
}

proof fn lemma_root_removed_keeps(roots: DocView, key: Seq<char>, url: Seq<char>)
    requires
        key != "url"@,
    ensures
        kept_count(root_removed(roots, key, url).0, "url"@, url) == kept_count(roots, "url"@, url),
{
    if let DocView::Dict(entries) = roots {
        if has_key(entries, key) {
            let i = key_index(entries, key);
            lemma_key_index(entries, key);
            theorem_chromium_removal_keeps_others(entries[i].1, url);
            let r = chromium_removed(entries[i].1, url);
            lemma_dict_kept_update(entries, i, r.0, "url"@, url);
        }
    }
}

/// Deleting from a Chromium-family document takes away only the bookmarks that
/// link to the URL: every node not at or below such a bookmark stays.
pub proof fn theorem_chromium_delete_keeps_others(doc: DocView, url: Seq<char>)
    ensures
        chromium_document_removed(doc, url) matches Ok(d) ==> kept_count(d, "url"@, url) == kept_count(doc, "url"@, url),
{
    let key = "url"@;
    reveal_strlit("url");
    reveal_strlit("bookmark_bar");
    reveal_strlit("other");
    reveal_strlit("synced");
    reveal_strlit("workspaces_v2");
    reveal_strlit("roots");
    assert("bookmark_bar"@ != key && "other"@ != key && "synced"@ != key && "workspaces_v2"@ != key && "roots"@ != key) by {
        assert("bookmark_bar"@.len() != key.len());
        assert("other"@.len() != key.len());
        assert("synced"@.len() != key.len());
        assert("workspaces_v2"@.len() != key.len());
        assert("roots"@.len() != key.len());
    }
    if let Some(roots) = get_field(doc, "roots"@) {
        lemma_root_removed_keeps(roots, "bookmark_bar"@, url);
        let a = root_removed(roots, "bookmark_bar"@, url);
        lemma_root_removed_keeps(a.0, "other"@, url);
        let b = root_removed(a.0, "other"@, url);
        lemma_root_removed_keeps(b.0, "synced"@, url);
        let c = root_removed(b.0, "synced"@, url);
        lemma_root_removed_keeps(c.0, "workspaces_v2"@, url);
        let r = roots_removed(roots, url);
        if r.1 {
            if let DocView::Dict(entries) = doc {
                lemma_key_index(entries, "roots"@);
                let i = key_index(entries, "roots"@);
                lemma_dict_kept_update(entries, i, r.0, key, url);
            }
        }
    }
}

/// A removal from a Safari list takes away only the entries whose "URLString" is
/// the URL (with what lies below them): every other node stays.
pub proof fn theorem_safari_removal_keeps_others(items: Seq<DocView>, url: Seq<char>)
    ensures
        items_kept_count(safari_removed(items, url).0, "URLString"@, url) == items_kept_count(items, "URLString"@, url),
    decreases items, 1nat,
{
    lemma_unlinked_kept(items, "URLString"@, url);
    lemma_safari_nested_keeps(items, url);
}

proof fn lemma_safari_nested_keeps(items: Seq<DocView>, url: Seq<char>)
    ensures
        items_kept_count(safari_removed_nested(items, url).0, "URLString"@, url)
            == items_kept_count(items, "URLString"@, url),
    decreases items, 0nat,
{
    let key = "URLString"@;
    if items.len() > 0 {
        assert(decreases_to!(items => items[0]));
        lemma_safari_in_keeps(items[0], url);
        let r = safari_removed_in(items[0], url);
        if r.1 {
            lemma_items_kept_update(items, 0, r.0, key, url);
        } else {
            lemma_safari_in_unchanged(items[0], url);
            lemma_safari_nested_keeps(items.drop_first(), url);
            let rest = safari_removed_nested(items.drop_first(), url);
            lemma_items_kept_concat(seq![r.0], rest.0, key, url);
            lemma_items_kept_concat(seq![items[0]], items.drop_first(), key, url);
            assert(seq![items[0]] + items.drop_first() =~= items);
            assert(seq![r.0].drop_last() =~= Seq::<DocView>::empty());
        }
    }
}

proof fn lemma_safari_in_keeps(child: DocView, url: Seq<char>)
    ensures
        kept_count(safari_removed_in(child, url).0, "URLString"@, url) == kept_count(child, "URLString"@, url),
    decreases child, 2nat,
{
    let key = "URLString"@;
    if let DocView::Dict(entries) = child {
        if has_key(entries, "Children"@) {
            let i = key_index(entries, "Children"@);
            lemma_key_index(entries, "Children"@);
            if let DocView::List(inner) = entries[i].1 {
                assert(entries[i].0 != key) by {
                    reveal_strlit("URLString");
                    reveal_strlit("Children");
                    assert(entries[i].0.len() != key.len());
                }
                assert(decreases_to!(child => entries));
                assert(decreases_to!(entries => entries[i]));
                assert(decreases_to!(entries[i] => entries[i].1));
                theorem_safari_removal_keeps_others(inner, url);
                let r = safari_removed(inner, url);
                lemma_dict_kept_update(entries, i, DocView::List(r.0), key, url);
            }
        }
    }
}

/// Deleting from Safari's document takes away only the entries whose "URLString"
/// is the URL: every node not at or below such an entry stays.
pub proof fn theorem_safari_delete_keeps_others(doc: DocView, url: Seq<char>)
    ensures
        safari_document_removed(doc, url) matches Ok(d) ==> kept_count(d, "URLString"@, url)
            == kept_count(doc, "URLString"@, url),
{
    let key = "URLString"@;
    if let DocView::Dict(entries) = doc {
        if has_key(entries, "Children"@) {
            let i = key_index(entries, "Children"@);
            lemma_key_index(entries, "Children"@);
            if let DocView::List(items) = entries[i].1 {
                assert(entries[i].0 != key) by {
                    reveal_strlit("URLString");
                    reveal_strlit("Children");
                    assert(entries[i].0.len() != key.len());
                }
                theorem_safari_removal_keeps_others(items, url);
                let r = safari_removed(items, url);
                lemma_dict_kept_update(entries, i, DocView::List(r.0), key, url);
            }
        }
    }
}

} // verus!
