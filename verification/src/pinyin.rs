//! Pinyin matching of an ASCII keyword against a bookmark name.
//!
//! Each Chinese character of the name can be matched by its full (toneless)
//! pinyin or by the first letter of it, each ASCII letter or digit by itself
//! (case-insensitively), and the match may start at any matchable unit.

use vstd::prelude::*;
use ::pinyin::ToPinyin;
use crate::text::{
    chars_of, is_ascii_alnum, ascii_lower_char, ascii_lower, is_ascii_alphanumeric,
    to_ascii_lowercase, ascii_lowercase,
};

verus! {

/// The plain (toneless) pinyin that the pinyin crate's data gives to a character,
/// or `None` for a character without pinyin.
pub uninterp spec fn pinyin_of(c: char) -> Option<Seq<char>>;

/// Calls `pinyin::ToPinyin::to_pinyin` on `c` and, on a `Some`, `pinyin::Pinyin::plain`.
/// Trusted: the result is `pinyin_of(c)`, a lookup in the crate's generated table that
/// depends on `c` alone; a pinyin it returns is never empty (the table keeps its empty
/// entry for characters without pinyin, which `to_pinyin` maps to `None`).
#[verifier::external_body]
fn plain_pinyin(c: char) -> (r: Option<&'static str>)
    ensures
        match r {
            Some(p) => pinyin_of(c) == Some(p@) && p@.len() > 0,
            None => pinyin_of(c) is None,
        },
{
    match c.to_pinyin() {
        Some(p) => Some(p.plain()),
        None => None,
    }
}

/// A matchable unit taken from one character of a bookmark name.
#[derive(Debug, PartialEq, Eq)]
pub enum PyUnit {
    /// A Chinese character, by the characters of its full pinyin; the first one is its initial.
    Han(Vec<char>),
    /// An ASCII letter or digit, lower-cased.
    Ascii(char),
}

/// The mathematical value of a `PyUnit`.
pub enum UnitView {
    Han(Seq<char>),
    Ascii(char),
}

impl View for PyUnit {
    type V = UnitView;

    open spec fn view(&self) -> UnitView {
        match self {
            PyUnit::Han(full) => UnitView::Han(full@),
            PyUnit::Ascii(c) => UnitView::Ascii(*c),
        }
    }
}

pub open spec fn units_view(units: Seq<PyUnit>) -> Seq<UnitView> {
    units.map_values(|u: PyUnit| u@)
}

/// Every full pinyin in `units` is non-empty.
pub open spec fn units_wf(units: Seq<UnitView>) -> bool {
    forall|i: int| 0 <= i < units.len() ==> (#[trigger] units[i] matches UnitView::Han(full) ==> full.len() > 0)
}

/// The unit that a character contributes: its pinyin if it has one, else an ASCII
/// letter or digit lower-cased, else nothing (spaces and punctuation are skipped).
pub open spec fn unit_of(c: char) -> Option<UnitView> {
    match pinyin_of(c) {
        Some(p) => Some(UnitView::Han(p)),
        None => if is_ascii_alnum(c) {
            Some(UnitView::Ascii(ascii_lower_char(c)))
        } else {
            None
        },
    }
}

/// The units of a name, in the order of its characters.
pub open spec fn units_of(name: Seq<char>) -> Seq<UnitView>
    decreases name.len(),
{
    if name.len() == 0 {
        seq![]
    } else {
        let prev = units_of(name.drop_last());
        match unit_of(name.last()) {
            Some(u) => prev.push(u),
            None => prev,
        }
    }
}

/// Whether `kw` can be consumed entirely by consecutive units from the start of
/// `units`, each Chinese unit by its full pinyin or by its initial, each ASCII unit
/// by its own character.
pub open spec fn matches_from(units: Seq<UnitView>, kw: Seq<char>) -> bool
    decreases units.len(),
{
    if kw.len() == 0 {
        true
    } else if units.len() == 0 {
        false
    } else {
        match units[0] {
            UnitView::Han(full) => (kw.len() >= full.len() && kw.take(full.len() as int) == full
                && matches_from(units.drop_first(), kw.skip(full.len() as int))) || (full.len() > 0
                && kw[0] == full[0] && matches_from(units.drop_first(), kw.skip(1))),
            UnitView::Ascii(c) => kw[0] == c && matches_from(units.drop_first(), kw.skip(1)),
        }
    }
}

pub open spec fn has_han(units: Seq<UnitView>) -> bool {
    exists|i: int| 0 <= i < units.len() && #[trigger] units[i] is Han
}

/// The result of `pinyin_match(name, keyword)`.
pub open spec fn pinyin_matches(name: Seq<char>, keyword: Seq<char>) -> bool {
    let units = units_of(name);
    &&& keyword.len() > 0
    &&& vstd::utf8::is_ascii_chars(keyword)
    &&& has_han(units)
    &&& exists|start: int|
        0 <= start < units.len() && #[trigger] matches_from(units.skip(start), ascii_lower(keyword))
}

/// Extracts the matchable units of `name`, skipping punctuation and spaces.
pub fn extract_units(name: &str) -> (units: Vec<PyUnit>)
    ensures
        units_view(units@) == units_of(name@),
        units_wf(units_of(name@)),
{
    let chars = chars_of(name);
    let mut units: Vec<PyUnit> = Vec::new();
    for i in 0..chars.len()
        invariant
            chars@ == name@,
            units_view(units@) == units_of(chars@.take(i as int)),
            units_wf(units_view(units@)),
    {
        let ch = chars[i];
        let ghost prev = units@;
        assert(chars@.take(i + 1).drop_last() =~= chars@.take(i as int));
        match plain_pinyin(ch) {
            Some(py) => {
                units.push(PyUnit::Han(chars_of(py)));
                assert(units_view(units@) =~= units_view(prev).push(units@.last()@));
            },
            None => {
                if is_ascii_alphanumeric(ch) {
                    units.push(PyUnit::Ascii(to_ascii_lowercase(ch)));
                    assert(units_view(units@) =~= units_view(prev).push(units@.last()@));
                }
            },
        }
        assert(units_wf(units_view(units@))) by {
            assert forall|k: int| 0 <= k < units_view(units@).len() implies
                (#[trigger] units_view(units@)[k] matches UnitView::Han(full) ==> full.len() > 0) by {
                if k < prev.len() {
                    assert(units_view(units@)[k] == units_view(prev)[k]);
                }
            }
        }
    }
    assert(chars@.take(chars.len() as int) =~= chars@);
    units
}

/// Whether `full` occurs in `kw` at position `j`.
fn slice_eq_at(kw: &Vec<char>, j: usize, full: &Vec<char>) -> (r: bool)
    requires
        j + full.len() <= kw.len(),
    ensures
        r == (kw@.subrange(j as int, j + full.len()) == full@),
{
    let n = full.len();
    for t in 0..n
        invariant
            n == full.len(),
            j + n <= kw.len(),
            forall|q: int| 0 <= q < t ==> kw@[j + q] == full@[q],
    {
        if kw[j + t] != full[t] {
            assert(kw@.subrange(j as int, j + n)[t as int] != full@[t as int]);
            return false;
        }
    }
    assert(kw@.subrange(j as int, j + n) =~= full@);
    true
}

/// Whether `kw[j..]` is consumed by consecutive units from `units[i]` on.
fn match_from(units: &Vec<PyUnit>, i: usize, kw: &Vec<char>, j: usize) -> (r: bool)
    requires
        i <= units.len(),
        j <= kw.len(),
        units_wf(units_view(units@)),
    ensures
        r == matches_from(units_view(units@).skip(i as int), kw@.skip(j as int)),
    decreases units.len() - i,
{
    let ghost us = units_view(units@).skip(i as int);
    let ghost k = kw@.skip(j as int);
    if j == kw.len() {
        assert(k.len() == 0);
        return true;
    }
    if i == units.len() {
        assert(us.len() == 0);
        return false;
    }
    assert(us[0] == units@[i as int]@);
    assert(us.drop_first() =~= units_view(units@).skip(i + 1));
    match &units[i] {
        PyUnit::Han(full) => {
            let n = full.len();
            let mut full_hit = false;
            if kw.len() - j >= n {
                assert(k.take(n as int) =~= kw@.subrange(j as int, j + n));
                assert(k.skip(n as int) =~= kw@.skip(j + n));
                if slice_eq_at(kw, j, full) {
                    full_hit = match_from(units, i + 1, kw, j + n);
                }
            }
            if full_hit {
                return true;
            }
            assert(k.skip(1) =~= kw@.skip(j + 1));
            assert(full@.len() > 0) by {
                assert(units_view(units@)[i as int] == units@[i as int]@);
            }
            kw[j] == full[0] && match_from(units, i + 1, kw, j + 1)
        },
        PyUnit::Ascii(b) => {
            assert(k.skip(1) =~= kw@.skip(j + 1));
            kw[j] == *b && match_from(units, i + 1, kw, j + 1)
        },
    }
}

/// Whether `keyword` matches `name` through pinyin.
///
/// The keyword must be non-empty ASCII and the name must contain a Chinese
/// character; then the lower-cased keyword must be consumed by consecutive units
/// of the name starting at some unit, where each Chinese character is matched by
/// its full pinyin or its initial and each ASCII letter or digit by itself.
pub fn pinyin_match(name: &str, keyword: &str) -> (r: bool)
    ensures
        r == pinyin_matches(name@, keyword@),
{
    if keyword.is_empty() || !keyword.is_ascii() {
        return false;
    }
    let units = extract_units(name);
    let ghost uv = units_of(name@);
    let mut any_han = false;
    for i in 0..units.len()
        invariant
            units_view(units@) == uv,
            any_han == (exists|k: int| 0 <= k < i && #[trigger] uv[k] is Han),
    {
        assert(uv[i as int] == units@[i as int]@);
        if let PyUnit::Han(_) = &units[i] {
            any_han = true;
        }
    }
    if !any_han {
        return false;
    }
    let kw = ascii_lowercase(chars_of(keyword).as_slice());
    for start in 0..units.len()
        invariant
            units_view(units@) == uv,
            units_wf(uv),
            kw@ == ascii_lower(keyword@),
            has_han(uv),
            uv == units_of(name@),
            keyword@.len() > 0,
            vstd::utf8::is_ascii_chars(keyword@),
            forall|s: int| 0 <= s < start ==> !#[trigger] matches_from(uv.skip(s), kw@),
    {
        assert(kw@.skip(0) =~= kw@);
        if match_from(&units, start, &kw, 0) {
            assert(matches_from(uv.skip(start as int), ascii_lower(keyword@)));
            return true;
        }
    }
    false
}

// ── Laws ───────────────────────────────────────────────────────────────────

/// Whether `piece` is a way to type unit `u`: a Chinese unit by its full pinyin
/// or by its initial alone, an ASCII unit by its own character.
pub open spec fn piece_ok(u: UnitView, piece: Seq<char>) -> bool {
    match u {
        UnitView::Han(full) => piece == full || (piece.len() == 1 && full.len() > 0 && piece[0] == full[0]),
        UnitView::Ascii(c) => piece == seq![c],
    }
}

/// `pieces` type consecutive units from the start of `units`, one piece each.
pub open spec fn pieces_ok(units: Seq<UnitView>, pieces: Seq<Seq<char>>) -> bool {
    &&& pieces.len() <= units.len()
    &&& forall|i: int| 0 <= i < pieces.len() ==> #[trigger] piece_ok(units[i], pieces[i])
}

/// `kw` is typed by consecutive units from the start of `units`.
pub open spec fn segmented(units: Seq<UnitView>, kw: Seq<char>) -> bool {
    exists|pieces: Seq<Seq<char>>| #[trigger] pieces_ok(units, pieces) && pieces.flatten() == kw
}

/// The recursive matcher accepts exactly the keywords that split into pieces,
/// each typing one of consecutive units (full pinyin or initial for a Chinese
/// character, the character itself for an ASCII one), starting at the first unit.
pub proof fn lemma_matches_from_segmented(units: Seq<UnitView>, kw: Seq<char>)
    ensures
        matches_from(units, kw) <==> segmented(units, kw),
    decreases units.len(),
{
    let empty_pieces = Seq::<Seq<char>>::empty();
    if kw.len() == 0 {
        assert(pieces_ok(units, empty_pieces));
        assert(empty_pieces.flatten() =~= kw);
        return;
    }
    if units.len() == 0 {
        if segmented(units, kw) {
            let pieces = choose|pieces: Seq<Seq<char>>| #[trigger] pieces_ok(units, pieces) && pieces.flatten() == kw;
            assert(pieces.len() == 0);
        }
        return;
    }
    let rest = units.drop_first();
    // Forward: a successful match gives a segmentation.
    if matches_from(units, kw) {
        let p: Seq<char> = match units[0] {
            UnitView::Han(full) => if kw.len() >= full.len() && kw.take(full.len() as int) == full
                && matches_from(rest, kw.skip(full.len() as int)) {
                full
            } else {
                kw.take(1)
            },
            UnitView::Ascii(c) => kw.take(1),
        };
        assert(p.len() <= kw.len());
        assert(kw.take(p.len() as int) == p);
        assert(matches_from(rest, kw.skip(p.len() as int)));
        lemma_matches_from_segmented(rest, kw.skip(p.len() as int));
        let tail = choose|pieces: Seq<Seq<char>>| #[trigger] pieces_ok(rest, pieces) && pieces.flatten() == kw.skip(p.len() as int);
        let pieces = seq![p] + tail;
        assert(pieces.drop_first() =~= tail);
        assert(pieces.flatten() == p + tail.flatten());
        assert(p + kw.skip(p.len() as int) =~= kw);
        assert forall|i: int| 0 <= i < pieces.len() implies #[trigger] piece_ok(units[i], pieces[i]) by {
            if i > 0 {
                assert(pieces[i] == tail[i - 1]);
                assert(units[i] == rest[i - 1]);
                assert(piece_ok(rest[i - 1], tail[i - 1]));
            } else {
                assert(pieces[0] == p);
                match units[0] {
                    UnitView::Han(full) => {
                        if p != full {
                            assert(p.len() == 1 && p[0] == kw[0]);
                        }
                    },
                    UnitView::Ascii(c) => {
                        assert(p =~= seq![c]);
                    },
                }
            }
        }
        assert(pieces_ok(units, pieces));
    }
    // Backward: a segmentation gives a successful match.
    if segmented(units, kw) {
        let pieces = choose|pieces: Seq<Seq<char>>| #[trigger] pieces_ok(units, pieces) && pieces.flatten() == kw;
        assert(pieces.len() > 0) by {
            if pieces.len() == 0 {
                assert(pieces.flatten().len() == 0);
            }
        }
        let p = pieces[0];
        let tail = pieces.drop_first();
        assert(kw == p + tail.flatten());
        assert(kw.take(p.len() as int) =~= p);
        assert(kw.skip(p.len() as int) =~= tail.flatten());
        assert(pieces_ok(rest, tail)) by {
            assert forall|i: int| 0 <= i < tail.len() implies #[trigger] piece_ok(rest[i], tail[i]) by {
                assert(piece_ok(units[i + 1], pieces[i + 1]));
            }
        }
        lemma_matches_from_segmented(rest, tail.flatten());
        assert(piece_ok(units[0], p));
        match units[0] {
            UnitView::Han(full) => {
                if p == full {
                } else {
                    assert(kw[0] == p[0]);
                    assert(kw.skip(1) == tail.flatten());
                }
            },
            UnitView::Ascii(c) => {
                assert(kw[0] == c);
            },
        }
    }
}

/// What `pinyin_match` accepts, stated by segmentation: a non-empty ASCII keyword,
/// a name with a Chinese character, and a unit from which the lower-cased keyword
/// is typed by consecutive units, each Chinese character by its full pinyin or its
/// initial, each ASCII letter or digit by itself.
pub proof fn theorem_pinyin_match_segmented(name: Seq<char>, keyword: Seq<char>)
    ensures
        pinyin_matches(name, keyword) <==> {
            &&& keyword.len() > 0
            &&& vstd::utf8::is_ascii_chars(keyword)
            &&& has_han(units_of(name))
            &&& exists|start: int| 0 <= start < units_of(name).len()
                && #[trigger] segmented(units_of(name).skip(start), ascii_lower(keyword))
        },
{
    let units = units_of(name);
    let kw = ascii_lower(keyword);
    assert forall|start: int| 0 <= start < units.len() implies
        (matches_from(units.skip(start), kw) <==> #[trigger] segmented(units.skip(start), kw)) by {
        lemma_matches_from_segmented(units.skip(start), kw);
    }
    if pinyin_matches(name, keyword) {
        let start = choose|start: int| 0 <= start < units.len() && #[trigger] matches_from(units.skip(start), kw);
        assert(segmented(units.skip(start), kw));
    }
    if keyword.len() > 0 && vstd::utf8::is_ascii_chars(keyword) && has_han(units)
        && exists|start: int| 0 <= start < units.len() && #[trigger] segmented(units.skip(start), kw) {
        let start = choose|start: int| 0 <= start < units.len() && #[trigger] segmented(units.skip(start), kw);
        assert(matches_from(units.skip(start), kw));
    }
}

/// Lower-casing keeps a character ASCII, and keeps a non-ASCII character out of ASCII.
proof fn lemma_ascii_lower_char_ascii(c: char)
    ensures
        ('\0' <= c <= '\u{7f}') <==> ('\0' <= ascii_lower_char(c) <= '\u{7f}'),
{
    if 'A' <= c && c <= 'Z' {
        assert(65 <= (c as u32) <= 90);
        assert(((c as u32) + 32) as char == ascii_lower_char(c));
    }
}

/// Matching ignores the case of the keyword's ASCII letters: keywords that agree
/// once ASCII letters are lower-cased match the same names.
pub proof fn theorem_pinyin_match_case_insensitive(name: Seq<char>, k1: Seq<char>, k2: Seq<char>)
    requires
        ascii_lower(k1) == ascii_lower(k2),
    ensures
        pinyin_matches(name, k1) == pinyin_matches(name, k2),
{
    assert(k1.len() == ascii_lower(k1).len());
    assert(k2.len() == ascii_lower(k2).len());
    assert forall|i: int| 0 <= i < k1.len() implies (('\0' <= #[trigger] k1[i] <= '\u{7f}') <==> ('\0' <= k2[i] <= '\u{7f}')) by {
        assert(ascii_lower(k1)[i] == ascii_lower_char(k1[i]));
        assert(ascii_lower(k2)[i] == ascii_lower_char(k2[i]));
        lemma_ascii_lower_char_ascii(k1[i]);
        lemma_ascii_lower_char_ascii(k2[i]);
    }
    if vstd::utf8::is_ascii_chars(k1) {
        assert forall|i: int| 0 <= i < k2.len() implies '\0' <= #[trigger] k2[i] <= '\u{7f}' by {
            assert('\0' <= k1[i] <= '\u{7f}');
        }
    }
    if vstd::utf8::is_ascii_chars(k2) {
        assert forall|i: int| 0 <= i < k1.len() implies '\0' <= #[trigger] k1[i] <= '\u{7f}' by {
            assert('\0' <= k2[i] <= '\u{7f}');
        }
    }
    assert(vstd::utf8::is_ascii_chars(k1) == vstd::utf8::is_ascii_chars(k2));
}

/// The units of two names written one after the other are the units of each, in order.
pub proof fn lemma_units_of_concat(a: Seq<char>, b: Seq<char>)
    ensures
        units_of(a + b) == units_of(a) + units_of(b),
    decreases b.len(),
{
    if b.len() == 0 {
        assert(a + b =~= a);
        assert(units_of(a) + units_of(b) =~= units_of(a));
    } else {
        lemma_units_of_concat(a, b.drop_last());
        assert((a + b).drop_last() =~= a + b.drop_last());
        assert((a + b).last() == b.last());
        match unit_of(b.last()) {
            Some(u) => {
                assert(units_of(a) + units_of(b) =~= (units_of(a) + units_of(b.drop_last())).push(u));
            },
            None => {},
        }
    }
}

/// Units after those a keyword consumes do not matter.
pub proof fn lemma_matches_from_extend(units: Seq<UnitView>, more: Seq<UnitView>, kw: Seq<char>)
    ensures
        matches_from(units, kw) ==> matches_from(units + more, kw),
    decreases units.len(),
{
    if kw.len() > 0 && units.len() > 0 {
        assert((units + more)[0] == units[0]);
        assert((units + more).drop_first() =~= units.drop_first() + more);
        lemma_matches_from_extend(units.drop_first(), more, kw.skip(1));
        match units[0] {
            UnitView::Han(full) => {
                lemma_matches_from_extend(units.drop_first(), more, kw.skip(full.len() as int));
            },
            UnitView::Ascii(c) => {},
        }
    }
}

/// A keyword that matches a name also matches any longer name that contains it:
/// the match may start anywhere in the name.
pub proof fn theorem_pinyin_match_within(prefix: Seq<char>, name: Seq<char>, suffix: Seq<char>, keyword: Seq<char>)
    ensures
        pinyin_matches(name, keyword) ==> pinyin_matches(prefix + name + suffix, keyword),
{
    if pinyin_matches(name, keyword) {
        let un = units_of(name);
        let up = units_of(prefix);
        let us = units_of(suffix);
        lemma_units_of_concat(prefix, name);
        lemma_units_of_concat(prefix + name, suffix);
        let all = units_of(prefix + name + suffix);
        assert(all == up + un + us);
        let kw = ascii_lower(keyword);
        let start = choose|start: int| 0 <= start < un.len() && #[trigger] matches_from(un.skip(start), kw);
        assert(all.skip(up.len() + start) =~= un.skip(start) + us);
        lemma_matches_from_extend(un.skip(start), us, kw);
        assert(matches_from(all.skip(up.len() + start), kw));
        let h = choose|i: int| 0 <= i < un.len() && #[trigger] un[i] is Han;
        assert(all[up.len() + h] == un[h]);
        assert(has_han(all));
    }
}

/// A name without Chinese characters never matches through pinyin.
pub proof fn theorem_no_han_no_match(name: Seq<char>, keyword: Seq<char>)
    requires
        forall|i: int| 0 <= i < name.len() ==> pinyin_of(#[trigger] name[i]) is None,
    ensures
        !pinyin_matches(name, keyword),
    decreases name.len(),
{
    if name.len() > 0 {
        assert forall|i: int| 0 <= i < name.drop_last().len() implies pinyin_of(#[trigger] name.drop_last()[i]) is None by {
            assert(name.drop_last()[i] == name[i]);
        }
        theorem_no_han_no_match(name.drop_last(), keyword);
        lemma_no_han_units(name);
    }
}

pub proof fn lemma_no_han_units(name: Seq<char>)
    requires
        forall|i: int| 0 <= i < name.len() ==> pinyin_of(#[trigger] name[i]) is None,
    ensures
        !has_han(units_of(name)),
    decreases name.len(),
{
    if name.len() > 0 {
        assert forall|i: int| 0 <= i < name.drop_last().len() implies pinyin_of(#[trigger] name.drop_last()[i]) is None by {
            assert(name.drop_last()[i] == name[i]);
        }
        lemma_no_han_units(name.drop_last());
        assert(pinyin_of(name[name.len() - 1]) is None);
        let prev = units_of(name.drop_last());
        match unit_of(name.last()) {
            Some(u) => {
                assert forall|i: int| 0 <= i < prev.push(u).len() implies !(#[trigger] prev.push(u)[i] is Han) by {
                    if i < prev.len() {
                        assert(prev.push(u)[i] == prev[i]);
                    }
                }
            },
            None => {},
        }
    }
}

} // verus!
