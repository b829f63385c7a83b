[package]
name = "ani-cli-rs"
version = "0.10.1"
edition = "2021"
publish = false

[dependencies]
base64 = "0.22"
directories = "*"
futures-util = "0.3"
regex = "1"
reqwest = { version = "0.12", default-features = false, features = ["rustls-tls", "cookies"] }
scraper = "*"
serde = { version = "1", features = ["derive"] }
serde_json = "1"
tokio = { version = "1", features = ["fs", "time", "rt-multi-thread", "macros"] }
url = "2"
