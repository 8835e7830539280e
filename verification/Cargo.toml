[package]
name = "codex_account_switcher"
version = "2.0.0"
edition = "2021"
publish = false

[dependencies]
chrono = "0.4"
dirs = "6"
keyring = "3"
reqwest = { version = "0.12", default-features = false, features = ["json", "rustls-tls"] }
serde = { version = "1", features = ["derive"] }
serde_json = "1"
uuid = { version = "1", features = ["v4", "serde"] }
