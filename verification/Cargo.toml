[package]
name = "pwa"
version = "0.1.0"
edition = "2021"
publish = false

[dependencies]
alpm = "*"
alpm-utils = "*"
ansiterm = "*"
anyhow = "1"
crossterm = "*"
flate2 = "1"
futures = "0.3"
indicatif = "*"
nix = { version = "*", features = ["fs", "term"] }
raur = "*"
regex = "1"
reqwest = { version = "0.12", default-features = false, features = ["json", "stream", "rustls-tls"] }
scraper = "*"
serde = { version = "1", features = ["derive"] }
serde_json = "1"
srcinfo = "*"
tr = "*"
unicode-width = "*"
url = "2"
