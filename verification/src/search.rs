//! Matching of a keyword against bookmarks, ranking of the hits and removal of
//! duplicate URLs.
//!
//! A bookmark is a hit when the lower-cased keyword occurs in its lower-cased
//! name, else when the keyword matches its name through pinyin, else when the
//! keyword occurs in its lower-cased URL. Name hits come first, then pinyin
//! hits, then URL hits, each group in bookmark order; only the first hit of
//! each URL is kept.

use vstd::prelude::*;
use crate::types::{BookmarkEntry, BookmarkView, entries_view, PATH_SPLIT};
use crate::text::{chars_of, contains_chars, contains_seq, lowercase_of, to_lowercase};
use crate::pinyin::{pinyin_match, pinyin_matches};

verus! {

/// How a bookmark matches a keyword, in order of priority.
#[derive(Debug, Clone, Copy, PartialEq, Eq, Structural)]
pub enum MatchKind {
    Name,
    Pinyin,
    Url,
    NoMatch,
}

/// How bookmark `b` matches the lower-cased keyword `kw`.
pub open spec fn match_kind(b: BookmarkView, kw: Seq<char>) -> MatchKind {
    if contains_seq(lowercase_of(b.name), kw) {
        MatchKind::Name
    } else if pinyin_matches(b.name, kw) {
        MatchKind::Pinyin
    } else if contains_seq(lowercase_of(b.url), kw) {
        MatchKind::Url
    } else {
        MatchKind::NoMatch
    }
}

/// The rank of a kind: lower ranks are listed first.
pub open spec fn rank(k: MatchKind) -> int {
    match k {
        MatchKind::Name => 0,
        MatchKind::Pinyin => 1,
        MatchKind::Url => 2,
        MatchKind::NoMatch => 3,
    }
}

/// The positions of the bookmarks of `bs` that match `kw` as `kind`, in order.
pub open spec fn indices_of_kind(bs: Seq<BookmarkView>, kw: Seq<char>, kind: MatchKind) -> Seq<usize>
    decreases bs.len(),
{
    if bs.len() == 0 {
        seq![]
    } else {
        let prev = indices_of_kind(bs.drop_last(), kw, kind);
        if match_kind(bs.last(), kw) == kind {
            prev.push((bs.len() - 1) as usize)
        } else {
            prev
        }
    }
}

/// All hits of `kw` in `bs`: name hits, then pinyin hits, then URL hits.
pub open spec fn ranked(bs: Seq<BookmarkView>, kw: Seq<char>) -> Seq<usize> {
    indices_of_kind(bs, kw, MatchKind::Name) + indices_of_kind(bs, kw, MatchKind::Pinyin)
        + indices_of_kind(bs, kw, MatchKind::Url)
}

/// Whether one of the bookmarks at positions `kept` has URL `url`.
pub open spec fn url_seen(bs: Seq<BookmarkView>, kept: Seq<usize>, url: Seq<char>) -> bool {
    exists|k: int| 0 <= k < kept.len() && bs[kept[k] as int].url == url
}

/// `order` with every position dropped whose bookmark has the URL of an earlier kept one.
pub open spec fn dedup_by_url(bs: Seq<BookmarkView>, order: Seq<usize>) -> Seq<usize>
    decreases order.len(),
{
    if order.len() == 0 {
        seq![]
    } else {
        let kept = dedup_by_url(bs, order.drop_last());
        if url_seen(bs, kept, bs[order.last() as int].url) {
            kept
        } else {
            kept.push(order.last())
        }
    }
}

/// The search result for `keyword`: the ranked hits without duplicate URLs.
pub open spec fn search_result(bs: Seq<BookmarkView>, keyword: Seq<char>) -> Seq<usize> {
    dedup_by_url(bs, ranked(bs, lowercase_of(keyword)))
}

/// How `bookmark` matches the already lower-cased keyword `kw_lower`.
pub fn classify(bookmark: &BookmarkEntry, kw_lower: &str) -> (kind: MatchKind)
    ensures
        kind == match_kind(bookmark@, kw_lower@),
{
    let kw = chars_of(kw_lower);
    let name_lower = to_lowercase(bookmark.name.as_str());
    let url_lower = to_lowercase(bookmark.url.as_str());
    let name_hit = contains_chars(chars_of(name_lower.as_str()).as_slice(), kw.as_slice());
    let url_hit = contains_chars(chars_of(url_lower.as_str()).as_slice(), kw.as_slice());
    if name_hit {
        MatchKind::Name
    } else if pinyin_match(bookmark.name.as_str(), kw_lower) {
        MatchKind::Pinyin
    } else if url_hit {
        MatchKind::Url
    } else {
        MatchKind::NoMatch
    }
}

/// The positions of the bookmarks that match `keyword`: name hits, then pinyin
/// hits, then URL hits, each group in bookmark order.
pub fn rank_bookmarks(bookmarks: &Vec<BookmarkEntry>, keyword: &str) -> (order: Vec<usize>)
    ensures
        order@ == ranked(entries_view(bookmarks@), lowercase_of(keyword@)),
{
    let ghost bs = entries_view(bookmarks@);
    let kw_lower = to_lowercase(keyword);
    let ghost kw = kw_lower@;
    let mut name_matches: Vec<usize> = Vec::new();
    let mut pinyin_matches: Vec<usize> = Vec::new();
    let mut url_matches: Vec<usize> = Vec::new();
    for i in 0..bookmarks.len()
        invariant
            bs == entries_view(bookmarks@),
            kw == kw_lower@,
            name_matches@ == indices_of_kind(bs.take(i as int), kw, MatchKind::Name),
            pinyin_matches@ == indices_of_kind(bs.take(i as int), kw, MatchKind::Pinyin),
            url_matches@ == indices_of_kind(bs.take(i as int), kw, MatchKind::Url),
    {
        let kind = classify(&bookmarks[i], kw_lower.as_str());
        assert(bs.take(i + 1).drop_last() =~= bs.take(i as int));
        assert(bs.take(i + 1).last() == bookmarks@[i as int]@);
        match kind {
            MatchKind::Name => name_matches.push(i),
            MatchKind::Pinyin => pinyin_matches.push(i),
            MatchKind::Url => url_matches.push(i),
            MatchKind::NoMatch => {},
        }
    }
    assert(bs.take(bookmarks.len() as int) =~= bs);
    name_matches.append(&mut pinyin_matches);
    name_matches.append(&mut url_matches);
    name_matches
}

/// Keeps, of the positions in `order`, only the first one of each URL, in order.
pub fn deduplicate(bookmarks: &Vec<BookmarkEntry>, order: &mut Vec<usize>)
    requires
        forall|k: int| 0 <= k < old(order)@.len() ==> old(order)@[k] < bookmarks@.len(),
    ensures
        final(order)@ == dedup_by_url(entries_view(bookmarks@), old(order)@),
{
    let ghost bs = entries_view(bookmarks@);
    let ghost input = order@;
    let mut kept: Vec<usize> = Vec::new();
    for i in 0..order.len()
        invariant
            input == order@,
            bs == entries_view(bookmarks@),
            forall|k: int| 0 <= k < input.len() ==> input[k] < bookmarks@.len(),
            kept@ == dedup_by_url(bs, input.take(i as int)),
            forall|k: int| 0 <= k < kept@.len() ==> kept@[k] < bookmarks@.len(),
    {
        let idx = order[i];
        let url = &bookmarks[idx].url;
        let mut seen = false;
        for j in 0..kept.len()
            invariant
                forall|k: int| 0 <= k < kept@.len() ==> kept@[k] < bookmarks@.len(),
                bs == entries_view(bookmarks@),
                idx < bookmarks@.len(),
                url@ == bs[idx as int].url,
                seen == (exists|k: int| 0 <= k < j && bs[kept@[k] as int].url == url@),
        {
            if bookmarks[kept[j]].url == *url {
                seen = true;
            }
        }
        assert(input.take(i + 1).drop_last() =~= input.take(i as int));
        assert(input.take(i + 1).last() == idx);
        if !seen {
            kept.push(idx);
        }
    }
    assert(input.take(input.len() as int) =~= input);
    *order = kept;
}

/// The search result for `keyword` over `bookmarks`: the positions of the ranked
/// hits, keeping only the first hit of each URL.
pub fn search(bookmarks: &Vec<BookmarkEntry>, keyword: &str) -> (order: Vec<usize>)
    ensures
        order@ == search_result(entries_view(bookmarks@), keyword@),
{
    let mut order = rank_bookmarks(bookmarks, keyword);
    proof {
        lemma_ranked_in_bounds(entries_view(bookmarks@), lowercase_of(keyword@));
    }
    deduplicate(bookmarks, &mut order);
    order
}

proof fn lemma_indices_in_bounds(bs: Seq<BookmarkView>, kw: Seq<char>, kind: MatchKind)
    ensures
        forall|k: int| 0 <= k < indices_of_kind(bs, kw, kind).len() ==>
            #[trigger] indices_of_kind(bs, kw, kind)[k] < bs.len(),
    decreases bs.len(),
{
    if bs.len() > 0 {
        lemma_indices_in_bounds(bs.drop_last(), kw, kind);
        let prev = indices_of_kind(bs.drop_last(), kw, kind);
        assert forall|k: int| 0 <= k < indices_of_kind(bs, kw, kind).len() implies
            #[trigger] indices_of_kind(bs, kw, kind)[k] < bs.len() by {
            if k < prev.len() {
                assert(indices_of_kind(bs, kw, kind)[k] == prev[k]);
            }
        }
    }
}

proof fn lemma_ranked_in_bounds(bs: Seq<BookmarkView>, kw: Seq<char>)
    ensures
        forall|k: int| 0 <= k < ranked(bs, kw).len() ==> #[trigger] ranked(bs, kw)[k] < bs.len(),
{
    lemma_indices_in_bounds(bs, kw, MatchKind::Name);
    lemma_indices_in_bounds(bs, kw, MatchKind::Pinyin);
    lemma_indices_in_bounds(bs, kw, MatchKind::Url);
}

// ── Result items ───────────────────────────────────────────────────────────

/// What a search result shows and carries for one bookmark.
#[derive(Debug, PartialEq, Eq)]
pub struct ItemFields {
    pub title: String,
    pub subtitle: String,
    /// Handed on when the item is chosen: the URL to open.
    pub arg: String,
    pub uid: String,
    pub icon_path: String,
    /// The subtitle shown while the delete modifier is held.
    pub delete_subtitle: String,
    /// Handed on when the item is chosen with the delete modifier: "source<TAB>url".
    pub delete_arg: String,
}

/// The fields of the result item of bookmark `b`: its name; its browser, the path
/// separator, its folder path and its URL; its URL as argument and identifier; the
/// workflow icon; "Delete from " and its browser; its browser, a tab and its URL.
pub open spec fn item_fields_spec(b: BookmarkView, f: ItemFields) -> bool {
    &&& f.title@ == b.name
    &&& f.subtitle@ == b.source + PATH_SPLIT@ + b.path + b.url
    &&& f.arg@ == b.url
    &&& f.uid@ == b.url
    &&& f.icon_path@ == "./icon.png"@
    &&& f.delete_subtitle@ == "Delete from "@ + b.source
    &&& f.delete_arg@ == b.source + "\t"@ + b.url
}

pub fn item_fields(bookmark: &BookmarkEntry) -> (f: ItemFields)
    ensures
        item_fields_spec(bookmark@, f),
{
    let subtitle = bookmark.source.clone().concat(PATH_SPLIT).concat(bookmark.path.as_str()).concat(bookmark.url.as_str());
    let delete_arg = bookmark.source.clone().concat("\t").concat(bookmark.url.as_str());
    ItemFields {
        title: bookmark.name.clone(),
        subtitle,
        arg: bookmark.url.clone(),
        uid: bookmark.url.clone(),
        icon_path: String::from_str("./icon.png"),
        delete_subtitle: String::from_str("Delete from ").concat(bookmark.source.as_str()),
        delete_arg,
    }
}

/// Whether the bookmark at position `i` is listed before the one at position `j`:
/// a better kind of match first, and in bookmark order within a kind.
pub open spec fn listed_before(bs: Seq<BookmarkView>, kw: Seq<char>, i: usize, j: usize) -> bool {
    let ri = rank(match_kind(bs[i as int], kw));
    let rj = rank(match_kind(bs[j as int], kw));
    ri < rj || (ri == rj && i < j)
}

/// Positions in `order` are listed in strictly increasing `listed_before` order.
pub open spec fn in_listing_order(bs: Seq<BookmarkView>, kw: Seq<char>, order: Seq<usize>) -> bool {
    forall|a: int, b: int| 0 <= a < b < order.len() ==> #[trigger] listed_before(bs, kw, order[a], order[b])
}

proof fn lemma_indices_of_kind(bs: Seq<BookmarkView>, kw: Seq<char>, kind: MatchKind)
    requires
        bs.len() <= usize::MAX,
    ensures
        forall|k: int| 0 <= k < indices_of_kind(bs, kw, kind).len() ==> {
            &&& #[trigger] indices_of_kind(bs, kw, kind)[k] < bs.len()
            &&& match_kind(bs[indices_of_kind(bs, kw, kind)[k] as int], kw) == kind
        },
        forall|a: int, b: int| 0 <= a < b < indices_of_kind(bs, kw, kind).len() ==>
            #[trigger] indices_of_kind(bs, kw, kind)[a] < #[trigger] indices_of_kind(bs, kw, kind)[b],
        forall|i: int| 0 <= i < bs.len() && #[trigger] match_kind(bs[i], kw) == kind ==>
            indices_of_kind(bs, kw, kind).contains(i as usize),
    decreases bs.len(),
{
    if bs.len() > 0 {
        let prev_bs = bs.drop_last();
        lemma_indices_of_kind(prev_bs, kw, kind);
        let prev = indices_of_kind(prev_bs, kw, kind);
        let cur = indices_of_kind(bs, kw, kind);
        assert forall|k: int| 0 <= k < prev.len() implies prev[k] < prev_bs.len()
            && bs[prev[k] as int] == prev_bs[prev[k] as int] by {
            assert(prev[k] < prev_bs.len());
        }
        assert forall|k: int| 0 <= k < cur.len() implies {
            &&& #[trigger] cur[k] < bs.len()
            &&& match_kind(bs[cur[k] as int], kw) == kind
        } by {
            if k < prev.len() {
                assert(cur[k] == prev[k]);
            }
        }
        assert forall|a: int, b: int| 0 <= a < b < cur.len() implies #[trigger] cur[a] < #[trigger] cur[b] by {
            if b < prev.len() {
                assert(cur[a] == prev[a] && cur[b] == prev[b]);
            } else {
                assert(cur[a] == prev[a]);
                assert(prev[a] < prev_bs.len());
            }
        }
        assert forall|i: int| 0 <= i < bs.len() && #[trigger] match_kind(bs[i], kw) == kind implies
            cur.contains(i as usize) by {
            if i < bs.len() - 1 {
                assert(prev_bs[i] == bs[i]);
                assert(match_kind(prev_bs[i], kw) == kind);
                let k = choose|k: int| 0 <= k < prev.len() && prev[k] == i as usize;
                assert(cur[k] == i as usize);
            } else {
                assert(cur[cur.len() - 1] == i as usize);
            }
        }
    }
}

proof fn lemma_ranked(bs: Seq<BookmarkView>, kw: Seq<char>)
    requires
        bs.len() <= usize::MAX,
    ensures
        forall|k: int| 0 <= k < ranked(bs, kw).len() ==> {
            &&& #[trigger] ranked(bs, kw)[k] < bs.len()
            &&& match_kind(bs[ranked(bs, kw)[k] as int], kw) != MatchKind::NoMatch
        },
        in_listing_order(bs, kw, ranked(bs, kw)),
        forall|i: int| 0 <= i < bs.len() && #[trigger] match_kind(bs[i], kw) != MatchKind::NoMatch ==>
            ranked(bs, kw).contains(i as usize),
{
    lemma_indices_of_kind(bs, kw, MatchKind::Name);
    lemma_indices_of_kind(bs, kw, MatchKind::Pinyin);
    lemma_indices_of_kind(bs, kw, MatchKind::Url);
    let n = indices_of_kind(bs, kw, MatchKind::Name);
    let p = indices_of_kind(bs, kw, MatchKind::Pinyin);
    let u = indices_of_kind(bs, kw, MatchKind::Url);
    let r = ranked(bs, kw);
    assert(r == n + p + u);
    assert forall|k: int| 0 <= k < r.len() implies {
        &&& #[trigger] r[k] < bs.len()
        &&& match_kind(bs[r[k] as int], kw) != MatchKind::NoMatch
    } by {
        if k < n.len() {
            assert(r[k] == n[k]);
        } else if k < n.len() + p.len() {
            assert(r[k] == p[k - n.len()]);
        } else {
            assert(r[k] == u[k - n.len() - p.len()]);
        }
    }
    assert forall|a: int, b: int| 0 <= a < b < r.len() implies #[trigger] listed_before(bs, kw, r[a], r[b]) by {
        if b < n.len() {
            assert(r[a] == n[a] && r[b] == n[b]);
        } else if b < n.len() + p.len() {
            assert(r[b] == p[b - n.len()]);
            if a < n.len() {
                assert(r[a] == n[a]);
            } else {
                assert(r[a] == p[a - n.len()]);
            }
        } else {
            assert(r[b] == u[b - n.len() - p.len()]);
            if a < n.len() {
                assert(r[a] == n[a]);
            } else if a < n.len() + p.len() {
                assert(r[a] == p[a - n.len()]);
            } else {
                assert(r[a] == u[a - n.len() - p.len()]);
            }
        }
    }
    assert forall|i: int| 0 <= i < bs.len() && #[trigger] match_kind(bs[i], kw) != MatchKind::NoMatch implies
        r.contains(i as usize) by {
        match match_kind(bs[i], kw) {
            MatchKind::Name => {
                let k = choose|k: int| 0 <= k < n.len() && n[k] == i as usize;
                assert(r[k] == i as usize);
            },
            MatchKind::Pinyin => {
                let k = choose|k: int| 0 <= k < p.len() && p[k] == i as usize;
                assert(r[n.len() + k] == i as usize);
            },
            MatchKind::Url => {
                let k = choose|k: int| 0 <= k < u.len() && u[k] == i as usize;
                assert(r[n.len() + p.len() + k] == i as usize);
            },
            MatchKind::NoMatch => {},
        }
    }
}

proof fn lemma_dedup(bs: Seq<BookmarkView>, kw: Seq<char>, order: Seq<usize>)
    ensures
        forall|k: int| 0 <= k < dedup_by_url(bs, order).len() ==>
            order.contains(#[trigger] dedup_by_url(bs, order)[k]),
        forall|a: int, b: int| 0 <= a < b < dedup_by_url(bs, order).len() ==>
            bs[#[trigger] dedup_by_url(bs, order)[a] as int].url != bs[#[trigger] dedup_by_url(bs, order)[b] as int].url,
        forall|k: int| 0 <= k < order.len() ==> url_seen(bs, dedup_by_url(bs, order), bs[#[trigger] order[k] as int].url),
        in_listing_order(bs, kw, order) ==> in_listing_order(bs, kw, dedup_by_url(bs, order)),
    decreases order.len(),
{
    if order.len() > 0 {
        let init = order.drop_last();
        lemma_dedup(bs, kw, init);
        let kept = dedup_by_url(bs, init);
        let cur = dedup_by_url(bs, order);
        let last = order.last();
        assert forall|k: int| 0 <= k < cur.len() implies order.contains(#[trigger] cur[k]) by {
            if k < kept.len() {
                assert(cur[k] == kept[k]);
                let j = choose|j: int| 0 <= j < init.len() && init[j] == kept[k];
                assert(order[j] == kept[k]);
            } else {
                assert(cur[k] == last);
                assert(order[order.len() - 1] == last);
            }
        }
        assert forall|a: int, b: int| 0 <= a < b < cur.len() implies
            bs[#[trigger] cur[a] as int].url != bs[#[trigger] cur[b] as int].url by {
            if b < kept.len() {
                assert(cur[a] == kept[a] && cur[b] == kept[b]);
            } else {
                assert(cur[a] == kept[a] && cur[b] == last);
                assert(!url_seen(bs, kept, bs[last as int].url));
            }
        }
        assert forall|k: int| 0 <= k < order.len() implies url_seen(bs, cur, bs[#[trigger] order[k] as int].url) by {
            if k < order.len() - 1 {
                assert(order[k] == init[k]);
                let w = choose|w: int| 0 <= w < kept.len() && bs[kept[w] as int].url == bs[init[k] as int].url;
                assert(cur[w] == kept[w]);
            } else if url_seen(bs, kept, bs[last as int].url) {
                let w = choose|w: int| 0 <= w < kept.len() && bs[kept[w] as int].url == bs[last as int].url;
                assert(cur[w] == kept[w]);
            } else {
                assert(cur[cur.len() - 1] == last);
            }
        }
        if in_listing_order(bs, kw, order) {
            assert(in_listing_order(bs, kw, init)) by {
                assert forall|a: int, b: int| 0 <= a < b < init.len() implies
                    #[trigger] listed_before(bs, kw, init[a], init[b]) by {
                    assert(init[a] == order[a] && init[b] == order[b]);
                    assert(listed_before(bs, kw, order[a], order[b]));
                }
            }
            assert forall|a: int, b: int| 0 <= a < b < cur.len() implies
                #[trigger] listed_before(bs, kw, cur[a], cur[b]) by {
                if b < kept.len() {
                    assert(cur[a] == kept[a] && cur[b] == kept[b]);
                } else {
                    assert(cur[a] == kept[a] && cur[b] == last);
                    let j = choose|j: int| 0 <= j < init.len() && init[j] == kept[a];
                    assert(order[j] == kept[a]);
                    assert(listed_before(bs, kw, order[j], order[order.len() - 1]));
                }
            }
        }
    }
}

/// Position `i` of `order` holds the first bookmark of `order` with its URL.
pub open spec fn first_of_its_url(bs: Seq<BookmarkView>, order: Seq<usize>, i: int) -> bool {
    forall|j: int| 0 <= j < i ==> bs[order[j] as int].url != bs[order[i] as int].url
}

proof fn lemma_dedup_first(bs: Seq<BookmarkView>, order: Seq<usize>)
    ensures
        forall|k: int| 0 <= k < dedup_by_url(bs, order).len() ==> exists|i: int|
            0 <= i < order.len() && order[i] == #[trigger] dedup_by_url(bs, order)[k]
                && first_of_its_url(bs, order, i),
        forall|a: int, b: int| 0 <= a < b < dedup_by_url(bs, order).len() ==> exists|i: int, j: int|
            0 <= i < j < order.len() && order[i] == #[trigger] dedup_by_url(bs, order)[a]
                && order[j] == #[trigger] dedup_by_url(bs, order)[b],
    decreases order.len(),
{
    if order.len() > 0 {
        let init = order.drop_last();
        lemma_dedup_first(bs, init);
        lemma_dedup(bs, Seq::<char>::empty(), init);
        let kept = dedup_by_url(bs, init);
        let cur = dedup_by_url(bs, order);
        let n = order.len() - 1;
        let last = order.last();
        assert forall|i: int| 0 <= i < init.len() && first_of_its_url(bs, init, i) implies
            first_of_its_url(bs, order, i) by {
            assert forall|j: int| 0 <= j < i implies bs[order[j] as int].url != bs[order[i] as int].url by {
                assert(order[j] == init[j] && order[i] == init[i]);
            }
        }
        if !url_seen(bs, kept, bs[last as int].url) {
            assert(first_of_its_url(bs, order, n)) by {
                assert forall|j: int| 0 <= j < n implies bs[order[j] as int].url != bs[order[n] as int].url by {
                    assert(order[j] == init[j]);
                    assert(url_seen(bs, kept, bs[init[j] as int].url));
                }
            }
        }
        assert forall|k: int| 0 <= k < cur.len() implies exists|i: int|
            0 <= i < order.len() && order[i] == #[trigger] cur[k] && first_of_its_url(bs, order, i) by {
            if k < kept.len() {
                assert(cur[k] == kept[k]);
                let i = choose|i: int| 0 <= i < init.len() && init[i] == #[trigger] kept[k] && first_of_its_url(bs, init, i);
                assert(order[i] == init[i]);
            } else {
                assert(cur[k] == last && order[n] == last);
            }
        }
        assert forall|a: int, b: int| 0 <= a < b < cur.len() implies exists|i: int, j: int|
            0 <= i < j < order.len() && order[i] == #[trigger] cur[a] && order[j] == #[trigger] cur[b] by {
            if b < kept.len() {
                assert(cur[a] == kept[a] && cur[b] == kept[b]);
                let (i, j) = choose|i: int, j: int| 0 <= i < j < init.len() && init[i] == #[trigger] kept[a]
                    && init[j] == #[trigger] kept[b];
                assert(order[i] == init[i] && order[j] == init[j]);
            } else {
                assert(cur[a] == kept[a] && cur[b] == last && order[n] == last);
                let i = choose|i: int| 0 <= i < init.len() && init[i] == #[trigger] kept[a] && first_of_its_url(bs, init, i);
                assert(order[i] == init[i]);
            }
        }
    }
}

/// What `deduplicate` keeps of `order`: for each URL, the first position of `order`
/// with that URL, in the order of `order`; so the kept URLs are pairwise distinct
/// and every URL of `order` is kept.
pub proof fn theorem_dedup_by_url(bs: Seq<BookmarkView>, order: Seq<usize>)
    ensures
        forall|k: int| 0 <= k < dedup_by_url(bs, order).len() ==> exists|i: int|
            0 <= i < order.len() && order[i] == #[trigger] dedup_by_url(bs, order)[k]
                && first_of_its_url(bs, order, i),
        forall|a: int, b: int| 0 <= a < b < dedup_by_url(bs, order).len() ==> exists|i: int, j: int|
            0 <= i < j < order.len() && order[i] == #[trigger] dedup_by_url(bs, order)[a]
                && order[j] == #[trigger] dedup_by_url(bs, order)[b],
        forall|a: int, b: int| 0 <= a < b < dedup_by_url(bs, order).len() ==>
            bs[#[trigger] dedup_by_url(bs, order)[a] as int].url != bs[#[trigger] dedup_by_url(bs, order)[b] as int].url,
        forall|k: int| 0 <= k < order.len() ==> url_seen(bs, dedup_by_url(bs, order), bs[#[trigger] order[k] as int].url),
{
    lemma_dedup(bs, Seq::<char>::empty(), order);
    lemma_dedup_first(bs, order);
}

/// Every bookmark a search lists matches the keyword, no URL is listed twice, and
/// the listing puts name hits before pinyin hits before URL hits, each kind in
/// bookmark order.
pub proof fn theorem_search_sound(bs: Seq<BookmarkView>, keyword: Seq<char>)
    requires
        bs.len() <= usize::MAX,
    ensures
        forall|k: int| 0 <= k < search_result(bs, keyword).len() ==> {
            &&& #[trigger] search_result(bs, keyword)[k] < bs.len()
            &&& match_kind(bs[search_result(bs, keyword)[k] as int], lowercase_of(keyword)) != MatchKind::NoMatch
        },
        forall|a: int, b: int| 0 <= a < b < search_result(bs, keyword).len() ==>
            bs[#[trigger] search_result(bs, keyword)[a] as int].url
                != bs[#[trigger] search_result(bs, keyword)[b] as int].url,
        in_listing_order(bs, lowercase_of(keyword), search_result(bs, keyword)),
{
    let kw = lowercase_of(keyword);
    let r = ranked(bs, kw);
    lemma_ranked(bs, kw);
    lemma_dedup(bs, kw, r);
    let res = search_result(bs, keyword);
    assert forall|k: int| 0 <= k < res.len() implies {
        &&& #[trigger] res[k] < bs.len()
        &&& match_kind(bs[res[k] as int], kw) != MatchKind::NoMatch
    } by {
        assert(r.contains(res[k]));
        let j = choose|j: int| 0 <= j < r.len() && r[j] == res[k];
        assert(r[j] < bs.len());
    }
}

/// A search hides no URL: every bookmark that matches the keyword has its URL
/// among the listed bookmarks.
pub proof fn theorem_search_complete(bs: Seq<BookmarkView>, keyword: Seq<char>, i: int)
    requires
        bs.len() <= usize::MAX,
        0 <= i < bs.len(),
        match_kind(bs[i], lowercase_of(keyword)) != MatchKind::NoMatch,
    ensures
        url_seen(bs, search_result(bs, keyword), bs[i].url),
{
    let kw = lowercase_of(keyword);
    let r = ranked(bs, kw);
    lemma_ranked(bs, kw);
    lemma_dedup(bs, kw, r);
    assert(r.contains(i as usize));
    let j = choose|j: int| 0 <= j < r.len() && r[j] == i as usize;
    assert(url_seen(bs, search_result(bs, keyword), bs[r[j] as int].url));
}

/// Searching ignores case: two keywords with the same lower-case form list the
/// same bookmarks in the same order.
pub proof fn theorem_search_case_insensitive(bs: Seq<BookmarkView>, k1: Seq<char>, k2: Seq<char>)
    requires
        lowercase_of(k1) == lowercase_of(k2),
    ensures
        search_result(bs, k1) == search_result(bs, k2),
{
}

// ── What a search finds, in terms of the bookmark's own fields ────────────

/// The lower-cased keyword occurs in the bookmark's lower-cased name.
pub open spec fn name_hit(b: BookmarkView, keyword: Seq<char>) -> bool {
    contains_seq(lowercase_of(b.name), lowercase_of(keyword))
}

/// The lower-cased keyword matches the bookmark's name through pinyin.
pub open spec fn pinyin_hit(b: BookmarkView, keyword: Seq<char>) -> bool {
    pinyin_matches(b.name, lowercase_of(keyword))
}

/// The lower-cased keyword occurs in the bookmark's lower-cased URL.
pub open spec fn url_hit(b: BookmarkView, keyword: Seq<char>) -> bool {
    contains_seq(lowercase_of(b.url), lowercase_of(keyword))
}

/// How a bookmark is classified, stated by its fields: a name hit is a `Name`
/// match; a pinyin hit that is no name hit is a `Pinyin` match; a URL hit that is
/// neither is a `Url` match; and a bookmark that is none of these does not match.
pub proof fn theorem_classification(b: BookmarkView, keyword: Seq<char>)
    ensures
        name_hit(b, keyword) ==> match_kind(b, lowercase_of(keyword)) == MatchKind::Name,
        !name_hit(b, keyword) && pinyin_hit(b, keyword) ==> match_kind(b, lowercase_of(keyword)) == MatchKind::Pinyin,
        !name_hit(b, keyword) && !pinyin_hit(b, keyword) && url_hit(b, keyword)
            ==> match_kind(b, lowercase_of(keyword)) == MatchKind::Url,
        url_hit(b, keyword) ==> match_kind(b, lowercase_of(keyword)) != MatchKind::NoMatch,
        match_kind(b, lowercase_of(keyword)) != MatchKind::NoMatch
            <==> (name_hit(b, keyword) || pinyin_hit(b, keyword) || url_hit(b, keyword)),
{
}

/// A search finds every hit: a bookmark whose lower-cased name or URL contains the
/// lower-cased keyword, or whose name matches it through pinyin, has its URL listed.
pub proof fn theorem_search_finds_hits(bs: Seq<BookmarkView>, keyword: Seq<char>, i: int)
    requires
        bs.len() <= usize::MAX,
        0 <= i < bs.len(),
        name_hit(bs[i], keyword) || pinyin_hit(bs[i], keyword) || url_hit(bs[i], keyword),
    ensures
        url_seen(bs, search_result(bs, keyword), bs[i].url),
{
    theorem_classification(bs[i], keyword);
    theorem_search_complete(bs, keyword, i);
}

/// A search lists only hits, and every name hit before every bookmark that is not
/// one, and every name or pinyin hit before every bookmark that is neither.
pub proof fn theorem_search_hits_in_priority(bs: Seq<BookmarkView>, keyword: Seq<char>)
    requires
        bs.len() <= usize::MAX,
    ensures
        forall|k: int| 0 <= k < search_result(bs, keyword).len() ==> {
            let b = bs[#[trigger] search_result(bs, keyword)[k] as int];
            name_hit(b, keyword) || pinyin_hit(b, keyword) || url_hit(b, keyword)
        },
        forall|x: int, y: int| 0 <= x < y < search_result(bs, keyword).len()
            && name_hit(bs[#[trigger] search_result(bs, keyword)[y] as int], keyword)
            ==> name_hit(bs[#[trigger] search_result(bs, keyword)[x] as int], keyword),
        forall|x: int, y: int| 0 <= x < y < search_result(bs, keyword).len()
            && (name_hit(bs[#[trigger] search_result(bs, keyword)[y] as int], keyword)
                || pinyin_hit(bs[search_result(bs, keyword)[y] as int], keyword))
            ==> (name_hit(bs[#[trigger] search_result(bs, keyword)[x] as int], keyword)
                || pinyin_hit(bs[search_result(bs, keyword)[x] as int], keyword)),
{
    let res = search_result(bs, keyword);
    let kw = lowercase_of(keyword);
    theorem_search_sound(bs, keyword);
    assert forall|k: int| 0 <= k < res.len() implies {
        let b = bs[#[trigger] res[k] as int];
        name_hit(b, keyword) || pinyin_hit(b, keyword) || url_hit(b, keyword)
    } by {
        theorem_classification(bs[res[k] as int], keyword);
    }
    assert forall|x: int, y: int| 0 <= x < y < res.len() && name_hit(bs[#[trigger] res[y] as int], keyword)
        implies name_hit(bs[#[trigger] res[x] as int], keyword) by {
        theorem_classification(bs[res[x] as int], keyword);
        theorem_classification(bs[res[y] as int], keyword);
        assert(listed_before(bs, kw, res[x], res[y]));
    }
    assert forall|x: int, y: int| 0 <= x < y < res.len()
        && (name_hit(bs[#[trigger] res[y] as int], keyword) || pinyin_hit(bs[res[y] as int], keyword))
        implies (name_hit(bs[#[trigger] res[x] as int], keyword) || pinyin_hit(bs[res[x] as int], keyword)) by {
        theorem_classification(bs[res[x] as int], keyword);
        theorem_classification(bs[res[y] as int], keyword);
        assert(listed_before(bs, kw, res[x], res[y]));
    }
}

} // verus!
