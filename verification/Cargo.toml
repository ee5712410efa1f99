[package]
name = "vesper"
version = "1.1.0"
edition = "2021"
publish = false

[dependencies]
anyhow = "1"
async-trait = "0.1"
chrono = "0.4"
clap = { version = "4", features = ["derive"] }
directories = "*"
epub-builder = "*"
fs2 = "0.4"
reqwest = { version = "0.12", default-features = false, features = ["rustls-tls", "charset"] }
rusqlite = { version = "0.31", features = ["bundled"] }
rust-ini = "*"
scraper = "*"
serde_json = "1"
tokio = { version = "1", features = ["rt", "time", "process", "macros", "signal"] }
url = "2"
