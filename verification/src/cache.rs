//! The decisions of the bookmark cache: which file caches a browser, and when
//! the cache can be used instead of reading the browser's file again.

use vstd::prelude::*;
use crate::text::{chars_of, replaced, replace_all, string_from_chars};
use crate::types::BookmarkEntry;

verus! {

/// The cache file of a browser: its name with spaces written as `_`, then `.rkyv`.
pub open spec fn cache_file_name_spec(provider: Seq<char>) -> Seq<char> {
    replaced(provider, " "@, "_"@) + ".rkyv"@
}

pub fn cache_file_name(provider: &str) -> (name: String)
    ensures
        name@ == cache_file_name_spec(provider@),
{
    proof {
        reveal_strlit(" ");
    }
    let replaced_chars = replace_all(chars_of(provider).as_slice(), chars_of(" ").as_slice(), chars_of("_").as_slice());
    string_from_chars(replaced_chars.as_slice()).concat(".rkyv")
}

/// Whether the cache can be used: both modification times are known and the
/// cache was written no earlier than the browser's file was last changed.
/// Times are in nanoseconds from the Unix epoch (negative before it).
pub fn cache_is_fresh(source_mtime: Option<i128>, cache_mtime: Option<i128>) -> (fresh: bool)
    ensures
        fresh == (source_mtime is Some && cache_mtime is Some && cache_mtime->0 >= source_mtime->0),
{
    match (source_mtime, cache_mtime) {
        (Some(s), Some(c)) => c >= s,
        _ => false,
    }
}

/// Whether freshly read bookmarks are written to the cache: only when there are some.
pub fn should_store(entries: &Vec<BookmarkEntry>) -> (store: bool)
    ensures
        store == (entries@.len() > 0),
{
    entries.len() > 0
}

} // verus!
