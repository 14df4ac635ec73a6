[package]
name = "reverse_search"
version = "0.1.0"
edition = "2021"
publish = false

[dependencies]
ratatui = { version = "0.29", default-features = false }
regex-lite = "0.1"
serde_json = "1"
tokio = { version = "1", features = ["rt", "sync"] }
