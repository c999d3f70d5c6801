[package]
name = "chat-responses-codex"
version = "0.1.0"
edition = "2021"
publish = false

[dependencies]
sha2 = "0.10"
uuid = { version = "1", features = ["v4"] }
chrono = "0.4"
chrono-tz = "*"
serde = { version = "1", features = ["derive"] }
serde_json = "1"
thiserror = "*"
tokio = { version = "1", features = ["rt", "time", "macros", "sync"] }
futures-util = "0.3"
reqwest = { version = "*", default-features = false, features = ["json"] }
