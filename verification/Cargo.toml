[package]
name = "kb-core"
version = "0.1.0"
edition = "2021"
publish = false

[dependencies]
serde_yaml_ng = "0.10"
jiff = "0.2"
pulldown-cmark = { version = "0.13", default-features = false, features = ["html"] }
grep-regex = "0.1"
grep-searcher = "0.1"
grep-matcher = "0.1"
ignore = "0.4"
tiny_http = "0.12"
ureq = "3"
clap = { version = "4", features = ["derive"] }
clap_complete = "4"
serde = { version = "1", features = ["derive"] }
serde_json = "1"
anyhow = "1"
