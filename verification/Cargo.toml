[package]
name = "hiddify-vless-xhttp-parser"
version = "0.1.0"
edition = "2021"
publish = false

[dependencies]
anyhow = "1"
base64 = "0.22"
clap = { version = "4", features = ["derive"] }
futures = "0.3"
ipnetwork = "0.20"
percent-encoding = "2"
reqwest = { version = "0.12", default-features = false, features = ["rustls-tls", "json", "socks", "stream"] }
serde = { version = "1", features = ["derive"] }
serde_json = "1"
tokio = { version = "1", features = ["full"] }
tracing = "0.1"
tracing-subscriber = { version = "0.3", features = ["env-filter"] }
