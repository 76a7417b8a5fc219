//! Universal bookmark search: extraction of browser bookmarks into one list,
//! case-insensitive and pinyin-aware matching, ranking and de-duplication of
//! results, removal of a bookmark from a browser's bookmark document, and the
//! decisions of the self-updater.

pub mod text;
pub mod pinyin;
pub mod types;
pub mod extractor;
pub mod search;
pub mod deleter;
pub mod updater;
pub mod cache;
