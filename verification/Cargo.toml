[package]
name = "surf_fed"
version = "0.1.0"
edition = "2021"
publish = false

[dependencies]
serde = { version = "=1.0.229", features = ["derive"] }
serde_json = "=1.0.154"
scraper = "=0.29.0"
log = "=0.4.35"
env_logger = "=0.11.11"
reqwest = { version = "=0.12.28", default-features = false, features = ["blocking"] }
tokio = { version = "=1.54.1", features = ["rt", "rt-multi-thread"] }
tauri = { version = "2", default-features = false }
