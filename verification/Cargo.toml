[package]
name = "search_engine"
version = "0.1.0"
edition = "2021"
publish = false

[dependencies]
clap = { version = "4", features = ["derive"] }
rust-stemmers = "1"
scraper = "*"
serde = { version = "1", features = ["derive"] }
serde_json = "1"
tiny_http = "0.12"
