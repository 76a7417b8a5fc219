use universal_bookmarks::deleter::DeleteReport;
use universal_bookmarks::deleter::{
    bookmark_format, bookmarks_path_env_var, delete_chromium_bookmark, delete_safari_bookmark,
    find_bookmark_path, parse_delete_arg, remove_chromium_entry, remove_safari_entry, BookmarkFormat,
    BookmarkPath, ChromiumTextError, DeleteError, DocValue, delete_chromium_text,
};

fn text(s: &str) -> DocValue {
    DocValue::Text(s.to_string())
}

fn dict(fields: Vec<(&str, DocValue)>) -> DocValue {
    DocValue::Dict(fields.into_iter().map(|(k, v)| (k.to_string(), v)).collect())
}

fn chromium_url(name: &str, url: &str) -> DocValue {
    dict(vec![("name", text(name)), ("type", text("url")), ("url", text(url))])
}

fn chromium_folder(name: &str, children: Vec<DocValue>) -> DocValue {
    dict(vec![("children", DocValue::List(children)), ("name", text(name)), ("type", text("folder"))])
}

fn chromium_doc(bar: Vec<DocValue>, other: Vec<DocValue>) -> DocValue {
    dict(vec![
        ("checksum", text("abc")),
        ("roots", dict(vec![
            ("bookmark_bar", chromium_folder("Bookmarks bar", bar)),
            ("other", chromium_folder("Other", other)),
            ("synced", chromium_folder("Mobile", vec![])),
        ])),
        ("version", DocValue::Other(1)),
    ])
}

#[test]
fn chromium_delete_top_level() {
    let mut doc = chromium_doc(
        vec![chromium_url("A", "https://a"), chromium_folder("F", vec![chromium_url("B", "https://b")])],
        vec![],
    );
    assert_eq!(delete_chromium_bookmark(&mut doc, "https://a"), Ok(()));
    let expected = chromium_doc(vec![chromium_folder("F", vec![chromium_url("B", "https://b")])], vec![]);
    assert_eq!(doc, expected);
}

#[test]
fn chromium_delete_nested() {
    let mut doc = chromium_doc(
        vec![chromium_url("A", "https://a"), chromium_folder("F", vec![chromium_url("B", "https://b")])],
        vec![],
    );
    assert_eq!(delete_chromium_bookmark(&mut doc, "https://b"), Ok(()));
    let expected = chromium_doc(vec![chromium_url("A", "https://a"), chromium_folder("F", vec![])], vec![]);
    assert_eq!(doc, expected);
}

#[test]
fn chromium_delete_all_duplicates_in_one_list() {
    let mut doc = chromium_doc(
        vec![chromium_url("A", "https://a"), chromium_url("A2", "https://a"), chromium_url("C", "https://c")],
        vec![],
    );
    assert_eq!(delete_chromium_bookmark(&mut doc, "https://a"), Ok(()));
    assert_eq!(doc, chromium_doc(vec![chromium_url("C", "https://c")], vec![]));
}

#[test]
fn chromium_delete_stops_at_first_root() {
    let mut doc = chromium_doc(vec![chromium_url("A", "https://a")], vec![chromium_url("A", "https://a")]);
    assert_eq!(delete_chromium_bookmark(&mut doc, "https://a"), Ok(()));
    assert_eq!(doc, chromium_doc(vec![], vec![chromium_url("A", "https://a")]));
}

#[test]
fn chromium_delete_in_other() {
    let mut doc = chromium_doc(vec![chromium_url("A", "https://a")], vec![chromium_url("O", "https://o")]);
    assert_eq!(delete_chromium_bookmark(&mut doc, "https://o"), Ok(()));
    assert_eq!(doc, chromium_doc(vec![chromium_url("A", "https://a")], vec![]));
}

#[test]
fn chromium_delete_not_found_leaves_document() {
    let mut doc = chromium_doc(vec![chromium_url("A", "https://a")], vec![]);
    assert_eq!(delete_chromium_bookmark(&mut doc, "https://zzz"), Err(DeleteError::NotFound));
    assert_eq!(doc, chromium_doc(vec![chromium_url("A", "https://a")], vec![]));
}

#[test]
fn chromium_delete_missing_roots() {
    let mut doc = dict(vec![("checksum", text("abc"))]);
    assert_eq!(delete_chromium_bookmark(&mut doc, "https://a"), Err(DeleteError::MissingRoots));
    assert_eq!(doc, dict(vec![("checksum", text("abc"))]));
    let mut not_a_map = DocValue::List(vec![]);
    assert_eq!(delete_chromium_bookmark(&mut not_a_map, "https://a"), Err(DeleteError::MissingRoots));
}

#[test]
fn chromium_remove_entry_flags() {
    let mut folder = chromium_folder("F", vec![chromium_url("A", "https://a")]);
    assert!(remove_chromium_entry(&mut folder, "https://a"));
    assert_eq!(folder, chromium_folder("F", vec![]));
    assert!(!remove_chromium_entry(&mut folder, "https://a"));
    let mut leaf = chromium_url("A", "https://a");
    assert!(!remove_chromium_entry(&mut leaf, "https://a"));
}

fn safari_leaf(title: &str, url: &str) -> DocValue {
    dict(vec![("Title", text(title)), ("URLString", text(url)), ("WebBookmarkType", text("WebBookmarkTypeLeaf"))])
}

fn safari_list(title: &str, children: Vec<DocValue>) -> DocValue {
    dict(vec![("Children", DocValue::List(children)), ("Title", text(title)), ("WebBookmarkType", text("WebBookmarkTypeList"))])
}

fn safari_doc(children: Vec<DocValue>) -> DocValue {
    dict(vec![("Children", DocValue::List(children)), ("WebBookmarkFileVersion", DocValue::Other(1))])
}

#[test]
fn safari_delete_top_level() {
    let doc = safari_doc(vec![safari_leaf("A", "https://a"), safari_list("F", vec![safari_leaf("B", "https://b")])]);
    let r = delete_safari_bookmark(doc, "https://a");
    assert_eq!(r, Ok(safari_doc(vec![safari_list("F", vec![safari_leaf("B", "https://b")])])));
}

#[test]
fn safari_delete_nested() {
    let doc = safari_doc(vec![
        safari_list("E", vec![]),
        safari_list("F", vec![safari_list("G", vec![safari_leaf("B", "https://b")])]),
    ]);
    let r = delete_safari_bookmark(doc, "https://b");
    assert_eq!(r, Ok(safari_doc(vec![
        safari_list("E", vec![]),
        safari_list("F", vec![safari_list("G", vec![])]),
    ])));
}

#[test]
fn safari_delete_errors() {
    assert_eq!(delete_safari_bookmark(DocValue::List(vec![]), "https://a"), Err(DeleteError::NotDictionary));
    assert_eq!(delete_safari_bookmark(dict(vec![("Title", text("x"))]), "https://a"), Err(DeleteError::MissingChildren));
    assert_eq!(delete_safari_bookmark(dict(vec![("Children", text("x"))]), "https://a"), Err(DeleteError::ChildrenNotArray));
    assert_eq!(
        delete_safari_bookmark(safari_doc(vec![safari_leaf("A", "https://a")]), "https://zzz"),
        Err(DeleteError::NotFound)
    );
}

#[test]
fn safari_remove_entry_flags() {
    let mut items = vec![safari_leaf("A", "https://a"), safari_leaf("A again", "https://a"), safari_leaf("C", "https://c")];
    assert!(remove_safari_entry(&mut items, "https://a"));
    assert_eq!(items, vec![safari_leaf("C", "https://c")]);
    assert!(!remove_safari_entry(&mut items, "https://a"));
    assert_eq!(items, vec![safari_leaf("C", "https://c")]);
}

#[test]
fn delete_error_messages() {
    assert_eq!(DeleteError::MissingRoots.message(), "Missing 'roots' in bookmarks");
    assert_eq!(DeleteError::NotDictionary.message(), "Safari bookmarks is not a dictionary");
    assert_eq!(DeleteError::MissingChildren.message(), "No Children key in bookmarks");
    assert_eq!(DeleteError::ChildrenNotArray.message(), "Children is not an array");
    assert_eq!(DeleteError::NotFound.message(), "Bookmark not found");
}

#[test]
fn delete_arg_split_at_first_tab() {
    assert_eq!(parse_delete_arg("Safari\thttps://x.example"), Some(("Safari".to_string(), "https://x.example".to_string())));
    assert_eq!(parse_delete_arg("a\tb\tc"), Some(("a".to_string(), "b\tc".to_string())));
    assert_eq!(parse_delete_arg("\t"), Some((String::new(), String::new())));
    assert_eq!(parse_delete_arg("no tab here"), None);
}

#[test]
fn env_var_names() {
    assert_eq!(bookmarks_path_env_var("Google Chrome"), "GOOGLE_CHROME_BOOKMARKS_PATH");
    assert_eq!(bookmarks_path_env_var("Brave Beta"), "BRAVE_BETA_BOOKMARKS_PATH");
    assert_eq!(bookmarks_path_env_var("Safari"), "SAFARI_BOOKMARKS_PATH");
}

#[test]
fn bookmark_paths() {
    assert_eq!(find_bookmark_path("Safari", None), Some(BookmarkPath::InHome("Library/Safari/Bookmarks.plist".to_string())));
    assert_eq!(
        find_bookmark_path("Arc", None),
        Some(BookmarkPath::InHome("Library/Application Support/Arc/User Data/Default/Bookmarks".to_string()))
    );
    assert_eq!(find_bookmark_path("Netscape", None), None);
    assert_eq!(
        find_bookmark_path("Safari", Some("/custom/Bookmarks.plist".to_string())),
        Some(BookmarkPath::Absolute("/custom/Bookmarks.plist".to_string()))
    );
    assert_eq!(
        find_bookmark_path("Netscape", Some("Profiles/B".to_string())),
        Some(BookmarkPath::InHome("Profiles/B".to_string()))
    );
}

#[test]
fn formats() {
    assert_eq!(bookmark_format("Safari"), BookmarkFormat::Safari);
    assert_eq!(bookmark_format("Google Chrome"), BookmarkFormat::Chromium);
    assert_eq!(bookmark_format("safari"), BookmarkFormat::Chromium);
}

#[test]
fn delete_report_lines() {
    assert_eq!(DeleteReport::NoHome.text(), "Error: Cannot determine HOME directory");
    assert_eq!(DeleteReport::UnknownSource("Netscape".into()).text(), "Error: Unknown browser 'Netscape'");
    assert_eq!(DeleteReport::FileNotFound("Arc".into()).text(), "Error: Bookmark file not found for Arc");
    assert_eq!(DeleteReport::Deleted("Safari".into()).text(), "Deleted from Safari");
    assert_eq!(DeleteReport::Failed(DeleteError::NotFound.message()).text(), "Error: Bookmark not found");
}

const CHROMIUM_TEXT: &str = r#"{"roots":{"bookmark_bar":{"children":[{"type":"url","url":"https://a"},{"type":"url","url":"https://b"}],"type":"folder"},"other":{"children":[]},"synced":{"children":[]}},"version":1}"#;

#[test]
fn chromium_text_delete_writes_pretty_json() {
    let out = delete_chromium_text(CHROMIUM_TEXT, "https://a").ok().unwrap();
    let expected = r#"{
  "roots": {
    "bookmark_bar": {
      "children": [
        {
          "type": "url",
          "url": "https://b"
        }
      ],
      "type": "folder"
    },
    "other": {
      "children": []
    },
    "synced": {
      "children": []
    }
  },
  "version": 1
}"#;
    assert_eq!(out, expected);
}

#[test]
fn chromium_text_delete_errors() {
    assert!(matches!(delete_chromium_text("not json", "https://a"), Err(ChromiumTextError::Parse(_))));
    assert_eq!(
        delete_chromium_text(CHROMIUM_TEXT, "https://zzz"),
        Err(ChromiumTextError::Delete(DeleteError::NotFound))
    );
    assert_eq!(
        delete_chromium_text(r#"{"version": 1}"#, "https://a"),
        Err(ChromiumTextError::Delete(DeleteError::MissingRoots))
    );
    assert_eq!(
        ChromiumTextError::Delete(DeleteError::NotFound).message(),
        "Bookmark not found"
    );
    let parse = delete_chromium_text("[", "https://a").err().unwrap();
    assert!(parse.message().starts_with("Failed to parse bookmarks: "));
}

#[test]
fn chromium_text_keeps_other_values() {
    let text = r#"{"roots":{"bookmark_bar":{"children":[{"url":"https://a"},{"url":"https://c","n":2.5,"f":null,"t":true}]},"other":{},"synced":{}},"v":[1,-3,1e3]}"#;
    let out = delete_chromium_text(text, "https://a").ok().unwrap();
    let got: serde_json::Value = serde_json::from_str(&out).unwrap();
    let want: serde_json::Value = serde_json::from_str(
        r#"{"roots":{"bookmark_bar":{"children":[{"url":"https://c","n":2.5,"f":null,"t":true}]},"other":{},"synced":{}},"v":[1,-3,1e3]}"#,
    )
    .unwrap();
    assert_eq!(got, want);
}
