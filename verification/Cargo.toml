[package]
name = "anttp"
version = "0.1.0"
edition = "2021"
publish = false

[dependencies]
globset = "*"
serde = { version = "1", features = ["derive"] }
serde_json = "1"
hex = "0.4"
xor_name = "*"
chrono = "0.4"
log = "0.4"
env_logger = "*"
anyhow = "1"
actix-web = "4"
