[package]
name = "notemancy_lsp"
version = "0.1.0"
edition = "2021"
publish = false

[dependencies]
pulldown-cmark = "*"
fuzzy-matcher = "*"
serde_json = "*"
rayon = "*"
tokio = { version = "*", features = ["rt-multi-thread", "io-std", "macros"] }
tower-lsp = "*"
url = "*"
