[package]
name = "media_dl"
version = "0.1.0"
edition = "2021"
publish = false

[dependencies]
serde = { version = "1", features = ["derive"] }
serde_json = "1"
sha2 = "0.10"
hmac = "0.12"
chrono = "0.4"
reqwest = { version = "0.12", default-features = false, features = ["rustls-tls", "stream"] }
quick-xml = { version = "0.37", features = ["serialize"] }
percent-encoding = "2"
tokio = { version = "1", features = ["full"] }
tokio-util = { version = "0.7", features = ["io"] }
futures-util = "0.3"
bytes = "1"
which = "7"
