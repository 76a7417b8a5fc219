[package]
name = "universal_bookmarks"
version = "0.1.0"
edition = "2021"
publish = false

[dependencies]
pinyin = "*"
serde = { version = "*", features = ["derive"] }
serde_json = "*"
plist = "*"
rkyv = "*"
alfred = "*"
