[package]
name = "rank_matching"
version = "0.1.0"
edition = "2021"
publish = false

[dependencies]
dashmap = "5"
rand = "0.8"
config = { version = "0.13", default-features = false, features = ["toml"] }
futures-channel = "0.3"
futures-util = "0.3"
lazy_static = "1"
lockfree-cuckoohash = "*"
reqwest = { version = "0.11", default-features = false, features = ["json"] }
serde = { version = "1", features = ["derive"] }
tokio = { version = "1", features = ["full"] }
tokio-tungstenite = "0.20"
tungstenite = "0.20"
