[package]
name = "musicstudio"
version = "0.1.0"
edition = "2021"
publish = false

[dependencies]
anyhow = "1"
directories = "5"
env_logger = "0.11"
log = "0.4"
reqwest = { version = "0.12", default-features = false }
serde = { version = "1", features = ["derive"] }
serde_json = "1"
tokio = { version = "1", features = ["rt", "sync", "time", "process", "io-util", "macros"] }
