[package]
name = "zednotes_links"
version = "0.1.0"
edition = "2021"
publish = false

[dependencies]
pulldown-cmark = { version = "=0.13.6", default-features = false }
chrono = "=0.4.45"
percent-encoding = "=2.3.2"
serde_json = "=1.0.154"
serde_json_lenient = "0.2"
