[package]
name = "opencode-bill"
version = "0.1.0"
edition = "2021"
publish = false

[dependencies]
clap = "4"
directories = "6"
env_logger = "0.11"
log = "0.4"
reqwest = { version = "0.12", default-features = false, features = ["blocking", "rustls-tls"] }
rusqlite = { version = "0.37", features = ["bundled"] }
serde_json = "1"
thiserror = "2"
