//! Decisions of the self-updater: version comparison, reading the release
//! description, choosing the workflow package, the check frequency, and the
//! sequence of steps of an update run.

use vstd::prelude::*;
use crate::text::{
    chars_of, split_seq, lemma_split_nonempty, parse_u64, parse_u64_spec, first_at_or_after,
    lemma_first_at_or_after, find_from, occurs_in_at, trim_start_seq, skip_ws, leading_ws,
    string_from_chars, string_of_range, ends_with, ends_with_seq, contains_chars, contains_seq,
    trim_chars, trim_seq,
};

verus! {

// ── Versions ───────────────────────────────────────────────────────────────

/// The numeric parts of a version: its pieces between dots, each read as a
/// decimal `u64`, or 0 when it is not one.
pub open spec fn version_parts(v: Seq<char>) -> Seq<u64> {
    split_seq(v, '.').map_values(|p: Seq<char>| part_value(p))
}

/// A piece of a version read as a decimal `u64`, or 0 when it is not one.
pub open spec fn part_value(p: Seq<char>) -> u64 {
    match parse_u64_spec(p) {
        Some(n) => n,
        None => 0u64,
    }
}

/// Lexicographic order on sequences of numbers, as `Vec`'s `>` compares them: the
/// first differing part decides, and a longer sequence is above its prefixes.
pub open spec fn seq_gt(a: Seq<u64>, b: Seq<u64>) -> bool
    decreases a.len(),
{
    if a.len() == 0 {
        false
    } else if b.len() == 0 {
        true
    } else if a[0] != b[0] {
        a[0] > b[0]
    } else {
        seq_gt(a.drop_first(), b.drop_first())
    }
}

/// Whether version `remote` is strictly newer than `local`.
pub open spec fn newer(remote: Seq<char>, local: Seq<char>) -> bool {
    seq_gt(version_parts(remote), version_parts(local))
}

/// The numeric parts of `v`.
fn parse_version(v: &str) -> (parts: Vec<u64>)
    ensures
        parts@ == version_parts(v@),
{
    let chars = chars_of(v);
    let mut parts: Vec<u64> = Vec::new();
    let mut piece: Vec<char> = Vec::new();
    for i in 0..chars.len()
        invariant
            chars@ == v@,
            split_seq(chars@.take(i as int), '.').len() == parts@.len() + 1,
            split_seq(chars@.take(i as int), '.').last() == piece@,
            parts@ == split_seq(chars@.take(i as int), '.').drop_last().map_values(|p: Seq<char>| part_value(p)),
    {
        let ghost before = split_seq(chars@.take(i as int), '.');
        let ghost old_parts = parts@;
        let ghost old_piece = piece@;
        proof {
            lemma_split_nonempty(chars@.take(i as int), '.');
        }
        assert(chars@.take(i + 1).drop_last() =~= chars@.take(i as int));
        assert(chars@.take(i + 1).last() == chars@[i as int]);
        if chars[i] == '.' {
            let n = match parse_u64(piece.as_slice()) {
                Some(n) => n,
                None => 0,
            };
            parts.push(n);
            piece = Vec::new();
            proof {
                let after = split_seq(chars@.take(i + 1), '.');
                assert(after == before.push(Seq::<char>::empty()));
                assert(after.drop_last() == before);
                assert(before =~= before.drop_last().push(old_piece));
                assert(parts@ =~= after.drop_last().map_values(|p: Seq<char>| part_value(p)));
            }
        } else {
            piece.push(chars[i]);
            proof {
                let after = split_seq(chars@.take(i + 1), '.');
                assert(after.drop_last() =~= before.drop_last());
            }
        }
    }
    let ghost done = split_seq(chars@.take(chars.len() as int), '.');
    let n = match parse_u64(piece.as_slice()) {
        Some(n) => n,
        None => 0,
    };
    parts.push(n);
    assert(chars@.take(chars.len() as int) =~= chars@);
    proof {
        lemma_split_nonempty(chars@, '.');
        assert(done =~= done.drop_last().push(done.last()));
        assert(parts@ =~= version_parts(v@));
    }
    parts
}

/// Whether `a > b` in lexicographic order.
fn parts_greater(a: &Vec<u64>, b: &Vec<u64>) -> (r: bool)
    ensures
        r == seq_gt(a@, b@),
{
    let mut i: usize = 0;
    assert(a@.skip(0) =~= a@);
    assert(b@.skip(0) =~= b@);
    while i < a.len() && i < b.len()
        invariant
            i <= a@.len(),
            i <= b@.len(),
            seq_gt(a@, b@) == seq_gt(a@.skip(i as int), b@.skip(i as int)),
        decreases a@.len() - i,
    {
        if a[i] != b[i] {
            return a[i] > b[i];
        }
        assert(a@.skip(i as int).drop_first() =~= a@.skip(i + 1));
        assert(b@.skip(i as int).drop_first() =~= b@.skip(i + 1));
        i = i + 1;
    }
    i < a.len()
}

/// Whether release `remote` is strictly newer than the running `local` version,
/// comparing their dot-separated numeric parts in order.
pub fn is_newer(remote: &str, local: &str) -> (r: bool)
    ensures
        r == newer(remote@, local@),
{
    let r = parse_version(remote);
    let l = parse_version(local);
    parts_greater(&r, &l)
}

proof fn lemma_seq_gt_order(a: Seq<u64>, b: Seq<u64>, c: Seq<u64>)
    ensures
        !seq_gt(a, a),
        seq_gt(a, b) ==> !seq_gt(b, a),
        seq_gt(a, b) && seq_gt(b, c) ==> seq_gt(a, c),
    decreases a.len(),
{
    if a.len() > 0 {
        lemma_seq_gt_order(a.drop_first(), b.drop_first(), c.drop_first());
    }
}

/// Being newer is a strict order on versions: no version is newer than itself,
/// of two versions at most one is newer than the other, and a version newer than
/// one that is newer than a third is newer than that third.
pub proof fn theorem_newer_strict_order(a: Seq<char>, b: Seq<char>, c: Seq<char>)
    ensures
        !newer(a, a),
        newer(a, b) ==> !newer(b, a),
        newer(a, b) && newer(b, c) ==> newer(a, c),
{
    lemma_seq_gt_order(version_parts(a), version_parts(b), version_parts(c));
}

/// Searching a suffix of `hay` finds the occurrences in `hay`, shifted.
pub proof fn lemma_first_skip(hay: Seq<char>, needle: Seq<char>, k: int, j: int)
    requires
        0 <= k <= hay.len(),
        0 <= j,
    ensures
        first_at_or_after(hay.skip(k), needle, j) == (match first_at_or_after(hay, needle, j + k) {
            Some(i) => Some(i - k),
            None => None::<int>,
        }),
    decreases hay.len() + 1 - (j + k),
{
    let t = hay.skip(k);
    if j + needle.len() <= t.len() {
        assert(occurs_in_at(t, needle, j) == occurs_in_at(hay, needle, j + k)) by {
            assert(t.subrange(j, j + needle.len()) =~= hay.subrange(j + k, j + k + needle.len()));
        }
        if !occurs_in_at(t, needle, j) {
            lemma_first_skip(hay, needle, k, j + 1);
        }
    }
}

// ── Reading the release description ────────────────────────────────────────

/// `key` in double quotes.
pub open spec fn quoted(key: Seq<char>) -> Seq<char> {
    seq!['"'] + key + seq!['"']
}

/// The string value that follows a key: optional white space, a `:`, optional
/// white space and a `"`, then the text up to the next `"`; `None` when any of
/// these is missing. (No escapes are interpreted.)
pub open spec fn value_after_key(rest: Seq<char>) -> Option<Seq<char>> {
    let after_key = trim_start_seq(rest);
    if after_key.len() > 0 && after_key[0] == ':' {
        let after_ws = trim_start_seq(after_key.skip(1));
        if after_ws.len() > 0 && after_ws[0] == '"' {
            let body = after_ws.skip(1);
            match first_at_or_after(body, seq!['"'], 0) {
                Some(end) => Some(body.take(end)),
                None => None,
            }
        } else {
            None
        }
    } else {
        None
    }
}

/// The value of the first `"key": "value"` pair in `json` at or after position
/// `from`: occurrences of `"key"` not followed by a string value are passed over.
pub open spec fn json_value_from(json: Seq<char>, key: Seq<char>, from: int) -> Option<Seq<char>>
    decreases json.len() + 1 - from,
{
    if from < 0 {
        None
    } else {
        match first_at_or_after(json, quoted(key), from) {
            None => None,
            Some(pos) => {
                proof {
                    lemma_first_at_or_after(json, quoted(key), from);
                }
                match value_after_key(json.skip(pos + quoted(key).len())) {
                    Some(v) => Some(v),
                    None => json_value_from(json, key, pos + 1),
                }
            },
        }
    }
}

/// The value of the first `"key": "value"` pair in `json`, or `None` when there is none.
pub open spec fn json_string_value(json: Seq<char>, key: Seq<char>) -> Option<Seq<char>> {
    json_value_from(json, key, 0)
}

/// Exec form of `value_after_key` on what follows position `at`.
fn value_after_chars(json: &[char], at: usize) -> (r: Option<Vec<char>>)
    requires
        at <= json@.len(),
    ensures
        match value_after_key(json@.skip(at as int)) {
            Some(v) => r matches Some(w) && w@ == v,
            None => r is None,
        },
{
    let a = skip_ws(json, at);
    assert(trim_start_seq(json@.skip(at as int)) =~= json@.skip(a as int));
    if a < json.len() && json[a] == ':' {
        let b = skip_ws(json, a + 1);
        assert(json@.skip(a as int).skip(1) =~= json@.skip(a + 1));
        assert(trim_start_seq(json@.skip(a + 1)) =~= json@.skip(b as int));
        if b < json.len() && json[b] == '"' {
            let mut quote: Vec<char> = Vec::new();
            quote.push('"');
            assert(quote@ =~= seq!['"']);
            proof {
                lemma_first_at_or_after(json@, quote@, b + 1);
                lemma_first_skip(json@, quote@, b + 1, 0);
            }
            assert(json@.skip(b as int).skip(1) =~= json@.skip(b + 1));
            match find_from(json, quote.as_slice(), b + 1) {
                Some(end) => {
                    assert(json@.skip(b + 1).take(end - (b + 1)) =~= json@.subrange(b + 1, end as int));
                    Some(vstd::slice::slice_to_vec(&json[b + 1..end]))
                },
                None => None,
            }
        } else {
            None
        }
    } else {
        None
    }
}

/// Exec form of `json_string_value` on characters.
fn json_string_chars(json: &[char], key: &[char]) -> (r: Option<Vec<char>>)
    ensures
        match json_string_value(json@, key@) {
            Some(v) => r matches Some(w) && w@ == v,
            None => r is None,
        },
{
    let mut pattern: Vec<char> = Vec::new();
    pattern.push('"');
    for i in 0..key.len()
        invariant
            pattern@ == seq!['"'] + key@.take(i as int),
    {
        pattern.push(key[i]);
        assert(key@.take(i + 1) =~= key@.take(i as int).push(key@[i as int]));
    }
    pattern.push('"');
    assert(key@.take(key@.len() as int) =~= key@);
    assert(pattern@ =~= quoted(key@));
    let mut start: usize = 0;
    loop
        invariant
            pattern@ == quoted(key@),
            start <= json@.len() + 1,
            json_string_value(json@, key@) == json_value_from(json@, key@, start as int),
        decreases json@.len() + 1 - start,
    {
        proof {
            lemma_first_at_or_after(json@, pattern@, start as int);
        }
        match find_from(json, pattern.as_slice(), start) {
            None => {
                return None;
            },
            Some(pos) => {
                assert(occurs_in_at(json@, pattern@, pos as int));
                assert(pos + pattern@.len() <= json@.len());
                assert(json@.len() == json.len() && pattern@.len() == pattern.len());
                match value_after_chars(json, pos + pattern.len()) {
                    Some(v) => {
                        return Some(v);
                    },
                    None => {
                        start = pos + 1;
                    },
                }
            },
        }
    }
}

/// The value of the first `"key": "value"` pair in `json`, as `json_string_value` describes it.
pub fn extract_json_string(json: &str, key: &str) -> (r: Option<String>)
    ensures
        match json_string_value(json@, key@) {
            Some(v) => r matches Some(s) && s@ == v,
            None => r is None,
        },
{
    let json_chars = chars_of(json);
    let key_chars = chars_of(key);
    match json_string_chars(json_chars.as_slice(), key_chars.as_slice()) {
        Some(v) => Some(string_from_chars(v.as_slice())),
        None => None,
    }
}

// ── Choosing the workflow package ──────────────────────────────────────────

pub open spec fn download_key() -> Seq<char> {
    "browser_download_url"@
}

/// The `.alfredworkflow` download URLs of a release description, in order: for
/// each `"browser_download_url"` from position `from` on, the string value that
/// follows it, when it ends with `.alfredworkflow`.
pub open spec fn asset_candidates(json: Seq<char>, from: int) -> Seq<Seq<char>>
    decreases json.len() + 1 - from,
{
    if from < 0 {
        seq![]
    } else {
        match first_at_or_after(json, quoted(download_key()), from) {
            None => seq![],
            Some(p) => {
                proof {
                    lemma_first_at_or_after(json, quoted(download_key()), from);
                }
                let here = match json_string_value(json.skip(p), download_key()) {
                    Some(u) => if ends_with_seq(u, ".alfredworkflow"@) {
                        seq![u]
                    } else {
                        seq![]
                    },
                    None => seq![],
                };
                here + asset_candidates(json, p + quoted(download_key()).len())
            },
        }
    }
}

/// The first of `urls` that contains `arch`.
pub open spec fn first_containing(urls: Seq<Seq<char>>, arch: Seq<char>) -> Option<Seq<char>>
    decreases urls.len(),
{
    if urls.len() == 0 {
        None
    } else if contains_seq(urls[0], arch) {
        Some(urls[0])
    } else {
        first_containing(urls.drop_first(), arch)
    }
}

/// The package for the architecture `arch`: the first candidate whose URL names
/// `arch`, else the first candidate, else none.
pub open spec fn workflow_asset_url(json: Seq<char>, arch: Seq<char>) -> Option<Seq<char>> {
    let candidates = asset_candidates(json, 0);
    match first_containing(candidates, arch) {
        Some(u) => Some(u),
        None => if candidates.len() > 0 {
            Some(candidates[0])
        } else {
            None
        },
    }
}

pub proof fn lemma_first_containing_push(urls: Seq<Seq<char>>, u: Seq<char>, arch: Seq<char>)
    ensures
        first_containing(urls.push(u), arch) == (match first_containing(urls, arch) {
            Some(x) => Some(x),
            None => if contains_seq(u, arch) {
                Some(u)
            } else {
                None::<Seq<char>>
            },
        }),
    decreases urls.len(),
{
    if urls.len() > 0 {
        assert(urls.push(u)[0] == urls[0]);
        assert(urls.push(u).drop_first() =~= urls.drop_first().push(u));
        lemma_first_containing_push(urls.drop_first(), u, arch);
    } else {
        assert(urls.push(u)[0] == u);
        assert(urls.push(u).drop_first() =~= Seq::<Seq<char>>::empty());
        assert(first_containing(Seq::<Seq<char>>::empty(), arch) is None);
    }
}

/// The `.alfredworkflow` URL to download for the architecture `arch`, as
/// `workflow_asset_url` describes it.
pub fn find_workflow_asset(json: &str, arch: &str) -> (r: Option<String>)
    ensures
        match workflow_asset_url(json@, arch@) {
            Some(u) => r matches Some(s) && s@ == u,
            None => r is None,
        },
{
    let chars = chars_of(json);
    let arch_chars = chars_of(arch);
    let key_chars = chars_of("browser_download_url");
    let suffix = chars_of(".alfredworkflow");
    let mut search: Vec<char> = Vec::new();
    search.push('"');
    for i in 0..key_chars.len()
        invariant
            search@ == seq!['"'] + key_chars@.take(i as int),
    {
        search.push(key_chars[i]);
        assert(key_chars@.take(i + 1) =~= key_chars@.take(i as int).push(key_chars@[i as int]));
    }
    search.push('"');
    assert(key_chars@.take(key_chars@.len() as int) =~= key_chars@);
    assert(search@ =~= quoted(download_key()));
    let ghost all = asset_candidates(chars@, 0);
    let ghost seen: Seq<Seq<char>> = seq![];
    let mut preferred: Option<String> = None;
    let mut fallback: Option<String> = None;
    let mut start: usize = 0;
    assert(all =~= seen + asset_candidates(chars@, 0));
    loop
        invariant
            chars@ == json@,
            arch_chars@ == arch@,
            key_chars@ == download_key(),
            suffix@ == ".alfredworkflow"@,
            search@ == quoted(download_key()),
            all == asset_candidates(chars@, 0),
            all == seen + asset_candidates(chars@, start as int),
            start <= chars@.len(),
            match first_containing(seen, arch@) {
                Some(u) => preferred matches Some(p) && p@ == u,
                None => preferred is None,
            },
            if seen.len() > 0 {
                fallback matches Some(f) && f@ == seen[0]
            } else {
                fallback is None
            },
        ensures
            all == seen,
            match first_containing(seen, arch@) {
                Some(u) => preferred matches Some(p) && p@ == u,
                None => preferred is None,
            },
            if seen.len() > 0 {
                fallback matches Some(f) && f@ == seen[0]
            } else {
                fallback is None
            },
        decreases chars@.len() + 1 - start,
    {
        proof {
            lemma_first_at_or_after(chars@, search@, start as int);
        }
        match find_from(chars.as_slice(), search.as_slice(), start) {
            None => {
                assert(asset_candidates(chars@, start as int) =~= Seq::<Seq<char>>::empty());
                assert(all =~= seen);
                break;
            },
            Some(pos) => {
                assert(occurs_in_at(chars@, search@, pos as int));
                assert(chars@.len() == chars.len());
                let rest = &chars[pos..chars.len()];
                assert(rest@ =~= chars@.skip(pos as int));
                let url = json_string_chars(rest, key_chars.as_slice());
                let ghost here: Seq<Seq<char>> = match json_string_value(chars@.skip(pos as int), download_key()) {
                    Some(u) => if ends_with_seq(u, ".alfredworkflow"@) {
                        seq![u]
                    } else {
                        seq![]
                    },
                    None => seq![],
                };
                assert(asset_candidates(chars@, start as int) == here + asset_candidates(chars@, pos + search@.len()));
                let ghost old_seen = seen;
                if let Some(u) = url {
                    if ends_with(u.as_slice(), suffix.as_slice()) {
                        proof {
                            seen = seen.push(u@);
                            lemma_first_containing_push(old_seen, u@, arch@);
                        }
                        let named = contains_chars(u.as_slice(), arch_chars.as_slice());
                        let u_string = string_from_chars(u.as_slice());
                        if preferred.is_none() && named {
                            preferred = Some(u_string.clone());
                        }
                        if fallback.is_none() {
                            fallback = Some(u_string);
                        } else {
                            assert(seen[0] == old_seen[0]);
                        }
                    }
                }
                assert(all =~= seen + asset_candidates(chars@, pos + search@.len()));
                start = pos + search.len();
            },
        }
    }
    match preferred {
        Some(p) => Some(p),
        None => fallback,
    }
}

// ── Architectures and releases ─────────────────────────────────────────────

/// The architecture named by the output of `lipo -archs`: both `x86_64` and
/// `arm64` make "universal", else `arm64` makes "arm64", else `x86_64` makes
/// "amd64", else "unknown".
pub open spec fn arch_of(archs: Seq<char>) -> Seq<char> {
    let intel = contains_seq(archs, "x86_64"@);
    let arm = contains_seq(archs, "arm64"@);
    if intel && arm {
        "universal"@
    } else if arm {
        "arm64"@
    } else if intel {
        "amd64"@
    } else {
        "unknown"@
    }
}

pub fn arch_from_lipo(archs: &str) -> (arch: String)
    ensures
        arch@ == arch_of(archs@),
{
    let chars = chars_of(archs);
    let intel = contains_chars(chars.as_slice(), chars_of("x86_64").as_slice());
    let arm = contains_chars(chars.as_slice(), chars_of("arm64").as_slice());
    if intel && arm {
        String::from_str("universal")
    } else if arm {
        String::from_str("arm64")
    } else if intel {
        String::from_str("amd64")
    } else {
        String::from_str("unknown")
    }
}

/// The GitHub repository the releases come from.
pub const REPO: &'static str = "we11adam/alfred-universal-bookmarks";

pub open spec fn release_api_url() -> Seq<char> {
    "https://api.github.com/repos/"@ + REPO@ + "/releases/latest"@
}

/// The API address of the repository's latest release.
pub fn latest_release_api_url() -> (url: String)
    ensures
        url@ == release_api_url(),
{
    String::from_str("https://api.github.com/repos/").concat(REPO).concat("/releases/latest")
}

/// The number of `c` at the start of `s`.
pub open spec fn leading_count(s: Seq<char>, c: char) -> nat
    decreases s.len(),
{
    if s.len() > 0 && s[0] == c {
        1 + leading_count(s.drop_first(), c)
    } else {
        0
    }
}

/// `s` without its leading `v`s, as `str::trim_start_matches('v')` gives it.
pub open spec fn strip_leading_v(s: Seq<char>) -> Seq<char> {
    s.skip(leading_count(s, 'v') as int)
}

fn trim_leading_v(s: &[char]) -> (r: String)
    ensures
        r@ == strip_leading_v(s@),
{
    let mut i: usize = 0;
    assert(s@.skip(0) =~= s@);
    while i < s.len() && s[i] == 'v'
        invariant
            i <= s@.len(),
            leading_count(s@, 'v') == i + leading_count(s@.skip(i as int), 'v'),
        decreases s@.len() - i,
    {
        assert(s@.skip(i as int).drop_first() =~= s@.skip(i + 1));
        i = i + 1;
    }
    assert(s@.skip(i as int) =~= s@.subrange(i as int, s@.len() as int));
    assert(leading_count(s@.skip(i as int), 'v') == 0);
    string_of_range(s, i, s.len())
}

/// Why an update could not be carried out.
#[derive(Debug, PartialEq, Eq)]
pub enum UpdateError {
    Network,
    ParseResponse,
    NoAsset,
    Download(String),
    OpenInstaller,
}

/// The latest release: its description and its version (the tag without leading `v`s).
#[derive(Debug, PartialEq, Eq)]
pub struct LatestRelease {
    pub json: String,
    pub version: String,
}

/// The package chosen for download.
#[derive(Debug, PartialEq, Eq)]
pub struct WorkflowAsset {
    pub arch: String,
    pub download_url: String,
}

/// The version of a release description: its `tag_name` without leading `v`s.
pub open spec fn release_version(json: Seq<char>) -> Option<Seq<char>> {
    match json_string_value(json, "tag_name"@) {
        Some(tag) => Some(strip_leading_v(tag)),
        None => None,
    }
}

/// The latest release from the answer of the release API: `Network` when there
/// was no answer, `ParseResponse` when it has no `tag_name` string.
pub fn release_from_response(response: Option<String>) -> (r: Result<LatestRelease, UpdateError>)
    ensures
        match response {
            None => r matches Err(UpdateError::Network),
            Some(json) => match release_version(json@) {
                Some(v) => r matches Ok(rel) && rel.json@ == json@ && rel.version@ == v,
                None => r matches Err(UpdateError::ParseResponse),
            },
        },
{
    match response {
        None => Err(UpdateError::Network),
        Some(json) => match extract_json_string(json.as_str(), "tag_name") {
            Some(tag) => {
                let tag_chars = chars_of(tag.as_str());
                let version = trim_leading_v(tag_chars.as_slice());
                Ok(LatestRelease { json, version })
            },
            None => Err(UpdateError::ParseResponse),
        },
    }
}

/// The package of `release_json` for the architecture `arch`, or `NoAsset`.
pub fn select_workflow_asset(release_json: &str, arch: String) -> (r: Result<WorkflowAsset, UpdateError>)
    ensures
        match workflow_asset_url(release_json@, arch@) {
            Some(u) => r matches Ok(a) && a.download_url@ == u && a.arch@ == arch@,
            None => r matches Err(UpdateError::NoAsset),
        },
{
    match find_workflow_asset(release_json, arch.as_str()) {
        Some(download_url) => Ok(WorkflowAsset { arch, download_url }),
        None => Err(UpdateError::NoAsset),
    }
}

// ── Check frequency ────────────────────────────────────────────────────────

/// Days between two automatic update checks.
pub const FREQUENCY_DAYS: u64 = 7;

pub const SECONDS_PER_DAY: u64 = 86400;

/// The time of the last check, from the contents of the file that records it:
/// the trimmed contents read as a decimal `u64`.
pub fn parse_last_check(contents: &str) -> (r: Option<u64>)
    ensures
        r == parse_u64_spec(trim_seq(contents@)),
{
    let chars = chars_of(contents);
    let trimmed = trim_chars(chars.as_slice());
    parse_u64(trimmed.as_slice())
}

/// Whole days from `last_check` to `now`, the subtraction wrapping around as
/// unsigned machine arithmetic does when `last_check` lies in the future.
pub open spec fn days_elapsed(last_check: u64, now: u64) -> u64 {
    now.wrapping_sub(last_check) / 86400
}

/// The time of the last check recorded in the contents of its file, when they
/// could be read and hold a number.
pub open spec fn recorded_check(contents: Option<String>) -> Option<u64> {
    match contents {
        Some(c) => parse_u64_spec(trim_seq(c@)),
        None => None,
    }
}

/// Whether the automatic check is due: when no earlier check is recorded, or
/// when at least `FREQUENCY_DAYS` whole days have passed since it.
pub open spec fn check_due(last_check: Option<u64>, now: u64) -> bool {
    match last_check {
        None => true,
        Some(last) => days_elapsed(last, now) >= 7,
    }
}

// ── Where the updater keeps its files ─────────────────────────────────────

/// The bundle identifier used when the workflow's own cannot be read.
pub const DEFAULT_BUNDLE_ID: &'static str = "com.welladam.universalbookmarks";

/// Where the updater's cache directory is.
#[derive(Debug, PartialEq, Eq)]
pub enum CacheDirLocation {
    /// The directory Alfred names for the workflow.
    Given(String),
    /// `Library/Caches/com.runningwithcrayons.Alfred/Workflow Data/<bundle>` under `home`.
    UnderHome { home: String, bundle_id: String },
}

/// The cache directory: Alfred's `alfred_workflow_cache` when set; else the
/// conventional directory under the home directory (`/tmp` when that is unknown)
/// named by the workflow's bundle identifier (`DEFAULT_BUNDLE_ID` when unknown).
pub fn cache_dir_location(alfred_cache: Option<String>, home: Option<String>, bundle_id: Option<String>) -> (r: CacheDirLocation)
    ensures
        match alfred_cache {
            Some(dir) => r == CacheDirLocation::Given(dir),
            None => r matches CacheDirLocation::UnderHome { home: h, bundle_id: b } && h@ == (match home {
                Some(x) => x@,
                None => "/tmp"@,
            }) && b@ == (match bundle_id {
                Some(x) => x@,
                None => DEFAULT_BUNDLE_ID@,
            }),
        },
{
    match alfred_cache {
        Some(dir) => CacheDirLocation::Given(dir),
        None => {
            let h = match home {
                Some(x) => x,
                None => String::from_str("/tmp"),
            };
            let b = match bundle_id {
                Some(x) => x,
                None => String::from_str(DEFAULT_BUNDLE_ID),
            };
            CacheDirLocation::UnderHome { home: h, bundle_id: b }
        },
    }
}

// ── The steps of an update run ─────────────────────────────────────────────

/// How an update run was started.
#[derive(Debug, Clone, Copy, PartialEq, Eq, Structural)]
pub enum UpdateMode {
    /// The periodic check run in the background: gated by `FREQUENCY_DAYS`.
    Background,
    /// The check the user asked for: always runs, and ends with a message.
    Immediate,
}

/// What the outside world reports after an action.
#[derive(Debug, PartialEq, Eq)]
pub enum UpdateEvent {
    Begin,
    DevCheckout(bool),
    CacheDirCreated(bool),
    /// The current time, in seconds since the Unix epoch.
    Clock(u64),
    /// The contents of the last-check file, or `None` when it could not be read.
    LastCheckRead(Option<String>),
    CheckRecorded,
    /// The answer of the release API, or `None` when the request failed.
    ReleaseFetched(Option<String>),
    /// The output of `lipo -archs` on the running binary, or `None` when it could not run.
    ArchDetected(Option<String>),
    Downloaded(Result<(), String>),
    InstallerOpened(bool),
}

/// What the outside world is asked to do next.
#[derive(Debug, PartialEq, Eq)]
pub enum UpdateAction {
    CheckDevCheckout,
    CreateCacheDir,
    ReadClock,
    ReadLastCheck,
    /// Record the given time as the time of the last check.
    RecordCheck(u64),
    FetchRelease,
    DetectArch,
    /// Download the package at the given URL.
    Download(String),
    OpenInstaller,
    Finish(UpdateOutcome),
}

/// How an update run ended.
#[derive(Debug, PartialEq, Eq)]
pub enum UpdateOutcome {
    DevelopmentCheckout,
    CacheDirFailed,
    NotDue { last_check: u64, now: u64 },
    NetworkError,
    ParseError,
    UpToDate,
    LocalNewer { remote: String },
    NoAsset { remote: String },
    DownloadFailed { remote: String, error: String },
    Installed { remote: String },
    OpenFailed { remote: String },
    /// An event arrived that the current step does not expect.
    Interrupted,
}

/// Where an update run stands.
#[derive(Debug, PartialEq, Eq)]
pub enum UpdateState {
    Start,
    CheckingDev,
    CreatingDir,
    ReadingClock,
    ReadingLastCheck { now: u64 },
    RecordingBeforeFetch,
    Fetching,
    ClockAfterFetch { release: LatestRelease },
    RecordingAfterFetch { release: LatestRelease },
    DetectingArch { release: LatestRelease },
    Downloading { remote: String },
    Opening { remote: String },
    Done,
}

/// The step after the latest release is known: up to date when its version is the
/// local one, nothing to do when it is not newer, else the architecture is needed.
pub open spec fn release_step(local: Seq<char>, json: Seq<char>, version: Seq<char>, s2: UpdateState, a: UpdateAction) -> bool {
    if version == local {
        s2 is Done && a matches UpdateAction::Finish(UpdateOutcome::UpToDate)
    } else if !newer(version, local) {
        &&& s2 is Done
        &&& a matches UpdateAction::Finish(UpdateOutcome::LocalNewer { remote }) && remote@ == version
    } else {
        &&& s2 matches UpdateState::DetectingArch { release } && release.json@ == json && release.version@ == version
        &&& a is DetectArch
    }
}

/// The transition of an update run in `mode`, for the running version `local`,
/// from state `s` on event `e` to state `s2` with action `a`.
pub open spec fn update_step(mode: UpdateMode, local: Seq<char>, s: UpdateState, e: UpdateEvent, s2: UpdateState, a: UpdateAction) -> bool {
    match (s, e) {
        (UpdateState::Start, UpdateEvent::Begin) => s2 is CheckingDev && a is CheckDevCheckout,
        (UpdateState::CheckingDev, UpdateEvent::DevCheckout(dev)) => if dev {
            s2 is Done && a matches UpdateAction::Finish(UpdateOutcome::DevelopmentCheckout)
        } else {
            s2 is CreatingDir && a is CreateCacheDir
        },
        (UpdateState::CreatingDir, UpdateEvent::CacheDirCreated(ok)) => match mode {
            UpdateMode::Background => if ok {
                s2 is ReadingClock && a is ReadClock
            } else {
                s2 is Done && a matches UpdateAction::Finish(UpdateOutcome::CacheDirFailed)
            },
            UpdateMode::Immediate => s2 is Fetching && a is FetchRelease,
        },
        (UpdateState::ReadingClock, UpdateEvent::Clock(now)) => s2 matches UpdateState::ReadingLastCheck { now: n } && n == now
            && a is ReadLastCheck,
        (UpdateState::ReadingLastCheck { now }, UpdateEvent::LastCheckRead(contents)) => {
            let last = recorded_check(contents);
            if check_due(last, now) {
                s2 is RecordingBeforeFetch && (a matches UpdateAction::RecordCheck(t) && t == now)
            } else {
                &&& s2 is Done
                &&& a matches UpdateAction::Finish(UpdateOutcome::NotDue { last_check: l, now: n })
                &&& last == Some(l) && n == now
            }
        },
        (UpdateState::RecordingBeforeFetch, UpdateEvent::CheckRecorded) => s2 is Fetching && a is FetchRelease,
        (UpdateState::Fetching, UpdateEvent::ReleaseFetched(response)) => match response {
            None => s2 is Done && a matches UpdateAction::Finish(UpdateOutcome::NetworkError),
            Some(json) => match release_version(json@) {
                None => s2 is Done && a matches UpdateAction::Finish(UpdateOutcome::ParseError),
                Some(v) => match mode {
                    UpdateMode::Background => release_step(local, json@, v, s2, a),
                    UpdateMode::Immediate => {
                        &&& s2 matches UpdateState::ClockAfterFetch { release } && release.json@ == json@ && release.version@ == v
                        &&& a is ReadClock
                    },
                },
            },
        },
        (UpdateState::ClockAfterFetch { release }, UpdateEvent::Clock(now)) => {
            &&& s2 matches UpdateState::RecordingAfterFetch { release: r } && r.json@ == release.json@ && r.version@ == release.version@
            &&& a matches UpdateAction::RecordCheck(t) && t == now
        },
        (UpdateState::RecordingAfterFetch { release }, UpdateEvent::CheckRecorded) =>
            release_step(local, release.json@, release.version@, s2, a),
        (UpdateState::DetectingArch { release }, UpdateEvent::ArchDetected(output)) => {
            let arch = match output {
                Some(o) => arch_of(o@),
                None => "unknown"@,
            };
            match workflow_asset_url(release.json@, arch) {
                None => s2 is Done && (a matches UpdateAction::Finish(UpdateOutcome::NoAsset { remote }) && remote@ == release.version@),
                Some(u) => {
                    &&& s2 matches UpdateState::Downloading { remote } && remote@ == release.version@
                    &&& a matches UpdateAction::Download(url) && url@ == u
                },
            }
        },
        (UpdateState::Downloading { remote }, UpdateEvent::Downloaded(result)) => match result {
            Err(error) => {
                &&& s2 is Done
                &&& a matches UpdateAction::Finish(UpdateOutcome::DownloadFailed { remote: r, error: m })
                &&& r@ == remote@ && m@ == error@
            },
            Ok(_) => s2 matches UpdateState::Opening { remote: r } && r@ == remote@ && a is OpenInstaller,
        },
        (UpdateState::Opening { remote }, UpdateEvent::InstallerOpened(ok)) => {
            &&& s2 is Done
            &&& if ok {
                a matches UpdateAction::Finish(UpdateOutcome::Installed { remote: r }) && r@ == remote@
            } else {
                a matches UpdateAction::Finish(UpdateOutcome::OpenFailed { remote: r }) && r@ == remote@
            }
        },
        _ => s2 is Done && a matches UpdateAction::Finish(UpdateOutcome::Interrupted),
    }
}

fn step_after_release(local: &str, release: LatestRelease) -> (r: (UpdateState, UpdateAction))
    ensures
        release_step(local@, release.json@, release.version@, r.0, r.1),
{
    if String::from_str(local) == release.version {
        (UpdateState::Done, UpdateAction::Finish(UpdateOutcome::UpToDate))
    } else if !is_newer(release.version.as_str(), local) {
        (UpdateState::Done, UpdateAction::Finish(UpdateOutcome::LocalNewer { remote: release.version }))
    } else {
        (UpdateState::DetectingArch { release }, UpdateAction::DetectArch)
    }
}

/// One step of an update run: the next state and the next action, given the
/// state the run is in and what the last action gave.
pub fn update_step_next(mode: UpdateMode, local: &str, state: UpdateState, event: UpdateEvent) -> (r: (UpdateState, UpdateAction))
    ensures
        update_step(mode, local@, state, event, r.0, r.1),
{
    match (state, event) {
        (UpdateState::Start, UpdateEvent::Begin) => (UpdateState::CheckingDev, UpdateAction::CheckDevCheckout),
        (UpdateState::CheckingDev, UpdateEvent::DevCheckout(dev)) => if dev {
            (UpdateState::Done, UpdateAction::Finish(UpdateOutcome::DevelopmentCheckout))
        } else {
            (UpdateState::CreatingDir, UpdateAction::CreateCacheDir)
        },
        (UpdateState::CreatingDir, UpdateEvent::CacheDirCreated(ok)) => match mode {
            UpdateMode::Background => if ok {
                (UpdateState::ReadingClock, UpdateAction::ReadClock)
            } else {
                (UpdateState::Done, UpdateAction::Finish(UpdateOutcome::CacheDirFailed))
            },
            UpdateMode::Immediate => (UpdateState::Fetching, UpdateAction::FetchRelease),
        },
        (UpdateState::ReadingClock, UpdateEvent::Clock(now)) => (UpdateState::ReadingLastCheck { now }, UpdateAction::ReadLastCheck),
        (UpdateState::ReadingLastCheck { now }, UpdateEvent::LastCheckRead(contents)) => {
            let last = match &contents {
                Some(c) => parse_last_check(c.as_str()),
                None => None,
            };
            let due = match last {
                None => true,
                Some(l) => now.wrapping_sub(l) / SECONDS_PER_DAY >= FREQUENCY_DAYS,
            };
            if due {
                (UpdateState::RecordingBeforeFetch, UpdateAction::RecordCheck(now))
            } else {
                match last {
                    Some(l) => (UpdateState::Done, UpdateAction::Finish(UpdateOutcome::NotDue { last_check: l, now })),
                    None => (UpdateState::RecordingBeforeFetch, UpdateAction::RecordCheck(now)),
                }
            }
        },
        (UpdateState::RecordingBeforeFetch, UpdateEvent::CheckRecorded) => (UpdateState::Fetching, UpdateAction::FetchRelease),
        (UpdateState::Fetching, UpdateEvent::ReleaseFetched(response)) => match release_from_response(response) {
            Err(UpdateError::Network) => (UpdateState::Done, UpdateAction::Finish(UpdateOutcome::NetworkError)),
            Err(_) => (UpdateState::Done, UpdateAction::Finish(UpdateOutcome::ParseError)),
            Ok(release) => match mode {
                UpdateMode::Background => step_after_release(local, release),
                UpdateMode::Immediate => (UpdateState::ClockAfterFetch { release }, UpdateAction::ReadClock),
            },
        },
        (UpdateState::ClockAfterFetch { release }, UpdateEvent::Clock(now)) =>
            (UpdateState::RecordingAfterFetch { release }, UpdateAction::RecordCheck(now)),
        (UpdateState::RecordingAfterFetch { release }, UpdateEvent::CheckRecorded) => step_after_release(local, release),
        (UpdateState::DetectingArch { release }, UpdateEvent::ArchDetected(output)) => {
            let arch = match &output {
                Some(o) => arch_from_lipo(o.as_str()),
                None => String::from_str("unknown"),
            };
            match select_workflow_asset(release.json.as_str(), arch) {
                Ok(asset) => (UpdateState::Downloading { remote: release.version }, UpdateAction::Download(asset.download_url)),
                Err(_) => (UpdateState::Done, UpdateAction::Finish(UpdateOutcome::NoAsset { remote: release.version })),
            }
        },
        (UpdateState::Downloading { remote }, UpdateEvent::Downloaded(result)) => match result {
            Err(error) => (UpdateState::Done, UpdateAction::Finish(UpdateOutcome::DownloadFailed { remote, error })),
            Ok(_) => (UpdateState::Opening { remote }, UpdateAction::OpenInstaller),
        },
        (UpdateState::Opening { remote }, UpdateEvent::InstallerOpened(ok)) => if ok {
            (UpdateState::Done, UpdateAction::Finish(UpdateOutcome::Installed { remote }))
        } else {
            (UpdateState::Done, UpdateAction::Finish(UpdateOutcome::OpenFailed { remote }))
        },
        _ => (UpdateState::Done, UpdateAction::Finish(UpdateOutcome::Interrupted)),
    }
}

/// The message that ends a run started by the user, for the running version `local`.
pub open spec fn outcome_text(local: Seq<char>, outcome: UpdateOutcome) -> Seq<char> {
    match outcome {
        UpdateOutcome::DevelopmentCheckout => "Development mode – update skipped"@,
        UpdateOutcome::NetworkError => "Update check failed – network error"@,
        UpdateOutcome::ParseError => "Update check failed – could not parse response"@,
        UpdateOutcome::UpToDate => "v"@ + local + " is the latest version"@,
        UpdateOutcome::LocalNewer { .. } => "v"@ + local + " is the latest version"@,
        UpdateOutcome::NoAsset { remote } => "v"@ + remote@ + " is available but no asset was found"@,
        UpdateOutcome::DownloadFailed { error, .. } => "Update download failed: "@ + error@,
        UpdateOutcome::Installed { remote } => "Installing v"@ + remote@ + " – Alfred will prompt to import"@,
        UpdateOutcome::OpenFailed { remote } => "Downloaded v"@ + remote@ + " but failed to open installer"@,
        _ => "Update check failed"@,
    }
}

pub fn outcome_message(local: &str, outcome: &UpdateOutcome) -> (msg: String)
    ensures
        msg@ == outcome_text(local@, *outcome),
{
    match outcome {
        UpdateOutcome::DevelopmentCheckout => String::from_str("Development mode – update skipped"),
        UpdateOutcome::NetworkError => String::from_str("Update check failed – network error"),
        UpdateOutcome::ParseError => String::from_str("Update check failed – could not parse response"),
        UpdateOutcome::UpToDate => String::from_str("v").concat(local).concat(" is the latest version"),
        UpdateOutcome::LocalNewer { .. } => String::from_str("v").concat(local).concat(" is the latest version"),
        UpdateOutcome::NoAsset { remote } => String::from_str("v").concat(remote.as_str()).concat(
            " is available but no asset was found",
        ),
        UpdateOutcome::DownloadFailed { error, .. } => String::from_str("Update download failed: ").concat(error.as_str()),
        UpdateOutcome::Installed { remote } => String::from_str("Installing v").concat(remote.as_str()).concat(
            " – Alfred will prompt to import",
        ),
        UpdateOutcome::OpenFailed { remote } => String::from_str("Downloaded v").concat(remote.as_str()).concat(
            " but failed to open installer",
        ),
        _ => String::from_str("Update check failed"),
    }
}

// ── The updater's log and environment ──────────────────────────────────────

/// The size above which the log file is cut.
pub const MAX_LOG_BYTES: u64 = 524288;

/// Whether a log file of `len` bytes is to be cut.
pub fn log_needs_truncation(len: u64) -> (r: bool)
    ensures
        r == (len > MAX_LOG_BYTES),
{
    len > MAX_LOG_BYTES
}

/// The log kept when it is cut: its second half (from the middle byte on).
pub fn truncated_log(data: &[u8]) -> (kept: Vec<u8>)
    ensures
        kept@ == data@.skip((data@.len() / 2) as int),
{
    let half = data.len() / 2;
    let kept = vstd::slice::slice_to_vec(&data[half..data.len()]);
    assert(data@.skip(half as int) =~= data@.subrange(half as int, data@.len() as int));
    kept
}

/// A line of the log: the time stamp in brackets, a space and the message.
pub fn log_line(timestamp: &str, msg: &str) -> (line: String)
    ensures
        line@ == "["@ + timestamp@ + "] "@ + msg@,
{
    String::from_str("[").concat(timestamp).concat("] ").concat(msg)
}

/// The value passed on for a proxy variable: its trimmed value, unless that is empty.
pub fn proxy_value(value: &str) -> (r: Option<String>)
    ensures
        match r {
            Some(v) => trim_seq(value@).len() > 0 && v@ == trim_seq(value@),
            None => trim_seq(value@).len() == 0,
        },
{
    let chars = chars_of(value);
    let trimmed = trim_chars(chars.as_slice());
    if trimmed.len() == 0 {
        None
    } else {
        Some(string_from_chars(trimmed.as_slice()))
    }
}

/// What holds of every state an update run passes through: a release is only
/// carried towards download, and a package only downloaded and opened, when its
/// version is newer than the running one.
pub open spec fn update_state_ok(local: Seq<char>, s: UpdateState) -> bool {
    match s {
        UpdateState::DetectingArch { release } => newer(release.version@, local),
        UpdateState::Downloading { remote } => newer(remote@, local),
        UpdateState::Opening { remote } => newer(remote@, local),
        _ => true,
    }
}

/// Every step keeps `update_state_ok`, a run starts in a state that satisfies it,
/// and a download is only asked for a release newer than the running version.
pub proof fn theorem_update_only_newer(
    mode: UpdateMode,
    local: Seq<char>,
    s: UpdateState,
    e: UpdateEvent,
    s2: UpdateState,
    a: UpdateAction,
)
    requires
        update_state_ok(local, s),
        update_step(mode, local, s, e, s2, a),
    ensures
        update_state_ok(local, UpdateState::Start),
        update_state_ok(local, s2),
        a is Download ==> (s2 matches UpdateState::Downloading { remote } && newer(remote@, local)),
        a is OpenInstaller ==> (s2 matches UpdateState::Opening { remote } && newer(remote@, local)),
{
}

/// A background run asks for the latest release only once the check is due and
/// its time recorded: the release is fetched only right after a recording, and a
/// recording before the fetch only follows a due check.
pub proof fn theorem_background_fetch_gated(
    local: Seq<char>,
    s: UpdateState,
    e: UpdateEvent,
    s2: UpdateState,
    a: UpdateAction,
)
    requires
        update_step(UpdateMode::Background, local, s, e, s2, a),
    ensures
        a is FetchRelease ==> s is RecordingBeforeFetch,
        s2 is RecordingBeforeFetch ==> (s matches UpdateState::ReadingLastCheck { now }
            && e matches UpdateEvent::LastCheckRead(contents)
            && check_due(recorded_check(contents), now)
            && a == UpdateAction::RecordCheck(now)),
{
}

/// Once the latest release is known, both kinds of run decide alike, by the
/// versions alone: a release newer than the running version goes on to the choice
/// of its package; one that is not ends the run, as up to date when it is the
/// running version and as older otherwise. A background run knows the release when
/// it is fetched; a run the user asked for, once it has recorded the check.
pub proof fn theorem_release_decision(
    mode: UpdateMode,
    local: Seq<char>,
    s: UpdateState,
    e: UpdateEvent,
    s2: UpdateState,
    a: UpdateAction,
)
    requires
        update_step(mode, local, s, e, s2, a),
    ensures
        s matches UpdateState::RecordingAfterFetch { release } ==> (e is CheckRecorded ==> (
            (newer(release.version@, local) ==> (s2 matches UpdateState::DetectingArch { release: r }
                && r.version@ == release.version@ && r.json@ == release.json@ && a is DetectArch))
            && (release.version@ == local ==> (s2 is Done && a == UpdateAction::Finish(UpdateOutcome::UpToDate)))
            && (!newer(release.version@, local) && release.version@ != local ==> (s2 is Done
                && (a matches UpdateAction::Finish(UpdateOutcome::LocalNewer { remote }) && remote@ == release.version@))))),
        mode == UpdateMode::Background ==> (s is Fetching ==> (e matches UpdateEvent::ReleaseFetched(Some(json)) ==> (
            release_version(json@) matches Some(v) ==> (
                (newer(v, local) ==> (s2 matches UpdateState::DetectingArch { release: r }
                    && r.version@ == v && r.json@ == json@ && a is DetectArch))
                && (v == local ==> (s2 is Done && a == UpdateAction::Finish(UpdateOutcome::UpToDate)))
                && (!newer(v, local) && v != local ==> (s2 is Done
                    && (a matches UpdateAction::Finish(UpdateOutcome::LocalNewer { remote }) && remote@ == v))))))),
        mode == UpdateMode::Immediate ==> (s is Fetching ==> (e matches UpdateEvent::ReleaseFetched(Some(json)) ==> (
            release_version(json@) matches Some(v) ==> (s2 matches UpdateState::ClockAfterFetch { release: r }
                && r.version@ == v && r.json@ == json@ && a is ReadClock)))),
{
    if let UpdateState::RecordingAfterFetch { release } = s {
        theorem_newer_strict_order(release.version@, release.version@, release.version@);
    }
    if let UpdateEvent::ReleaseFetched(Some(json)) = e {
        if let Some(v) = release_version(json@) {
            theorem_newer_strict_order(v, v, v);
        }
    }
}

/// A release whose package for the running architecture exists is downloaded:
/// from the choice of the package, the run asks to download exactly that package.
pub proof fn theorem_package_downloaded(
    mode: UpdateMode,
    local: Seq<char>,
    release: LatestRelease,
    output: Option<String>,
    s2: UpdateState,
    a: UpdateAction,
)
    requires
        update_step(mode, local, UpdateState::DetectingArch { release }, UpdateEvent::ArchDetected(output), s2, a),
    ensures
        ({
            let arch = match output {
                Some(o) => arch_of(o@),
                None => "unknown"@,
            };
            match workflow_asset_url(release.json@, arch) {
                Some(u) => (a matches UpdateAction::Download(url) && url@ == u)
                    && (s2 matches UpdateState::Downloading { remote } && remote@ == release.version@),
                None => s2 is Done && a is Finish,
            }
        }),
{
}

} // verus!
