[package]
name = "bookmark_launcher"
version = "0.1.0"
edition = "2021"
publish = false

[dependencies]
encoding_rs = "0.8"
fst = "0.4"
fuzzy-matcher = "0.3"
scraper = "0.20"
serde = { version = "1", features = ["derive"] }
toml = "0.8"
directories = "5"
reqwest = { version = "0.12", default-features = false, features = ["blocking", "rustls-tls"] }
open = "5"
ratatui = "0.29"
crossterm = "0.28"
