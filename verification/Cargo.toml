[package]
name = "epub_fixer"
version = "0.1.0"
edition = "2021"
publish = false

[dependencies]
quick-xml = "=0.22.0"
zip = { version = "0.6", default-features = false, features = ["deflate"] }
rusqlite = { version = "=0.25.4", features = ["bundled"] }
