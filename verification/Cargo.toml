[package]
name = "matching_engine"
version = "0.1.0"
edition = "2021"
publish = false

[dependencies]
rand = "0.8.5"
serde = { version = "1", features = ["derive"] }
serde_json = "1"
chrono = "0.4"
colored = "*"
prettytable-rs = "*"
env_logger = "*"
log = "0.4"
