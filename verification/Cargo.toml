[package]
name = "mini-lm"
version = "0.1.0"
edition = "2021"
publish = false

[dependencies]
chrono = "0.4"
futures-util = "0.3"
hex = "0.4"
keyring = { version = "3", default-features = false }
regex = "1"
reqwest = { version = "0.12", default-features = false, features = ["json", "stream"] }
rusqlite = { version = "0.32", features = ["bundled"] }
serde = { version = "1", features = ["derive"] }
serde_json = "1"
sha2 = "0.10"
tokio = { version = "1", features = ["time"] }
uuid = { version = "1", features = ["v4"] }
walkdir = "2"
