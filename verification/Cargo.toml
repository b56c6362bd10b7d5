[package]
name = "fulltext_index"
version = "0.1.0"
edition = "2021"
publish = false

[dependencies]
rust-stemmers = "1"
ngrams = "1"
strsim = "0.10"
md5 = "0.7"
rand = "0.8"
serde = { version = "1", features = ["derive"] }
serde_json = "1"
rocket = { version = "0.5", features = ["json"] }
