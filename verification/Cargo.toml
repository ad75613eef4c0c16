[package]
name = "caption_cleaner"
version = "0.1.0"
edition = "2021"
publish = false

[dependencies]
regex = "1"
serde = { version = "1", features = ["derive"] }
serde_json = "1"
thiserror = "2"
reqwest = { version = "0.12", features = ["json"] }
log = "0.4"
env_logger = "0.11"
dotenvy = "0.15"
