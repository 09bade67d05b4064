[package]
name = "fraud_detector"
version = "0.1.0"
edition = "2021"
publish = false

[dependencies]
actix-web = { version = "4", default-features = false, features = ["macros"] }
chrono = { version = "0.4", features = ["serde"] }
env_logger = "0.11"
log = "0.4"
memmap2 = "0.9"
serde = { version = "1", features = ["derive"] }
serde_json = "1"
