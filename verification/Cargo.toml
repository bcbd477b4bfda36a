[package]
name = "cce-calendar"
version = "0.1.0"
edition = "2021"
publish = false

[dependencies]
calloop = "*"
chrono = "0.4"
chrono-tz = "0.10"
env_logger = "0.11"
kdl = "6"
keyring = { version = "3", features = ["async-secret-service", "async-io", "crypto-rust"] }
log = "0.4"
reqwest = { version = "0.12", default-features = false, features = ["blocking", "json", "rustls-tls"] }
roxmltree = "*"
serde = { version = "1", features = ["derive"] }
serde_json = "1"
wayland-client = "0.31"
