[package]
name = "dictionary"
version = "0.1.0"
edition = "2021"
publish = false

[dependencies]
aho-corasick = "1"
regex = "1"
any_ascii = "*"
kanaria = "*"
wana_kana = "*"
serde = { version = "1", features = ["derive"] }
serde_json = "1"
anyhow = "1"
