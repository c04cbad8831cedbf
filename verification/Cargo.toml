[package]
name = "wikimisc"
version = "0.1.0"
edition = "2021"
publish = false

[dependencies]
tempfile = "3"
serde_json = "1"
tokio = { version = "1", features = ["rt", "time"] }
chrono = "0.4"
