[package]
name = "rust_downloader"
version = "0.1.0"
edition = "2021"
publish = false

[dependencies]
url = "2"
urlencoding = "2"
num_cpus = "1"
scraper = "*"
reqwest = { version = "0.12", default-features = false, features = ["blocking", "rustls-tls"] }
dialoguer = "*"
indicatif = "0.17"
threadpool = "1"
structopt = "0.3"
serde = { version = "1", features = ["derive"] }
serde_json = "1"
