[package]
name = "referral_list"
version = "0.1.0"
edition = "2021"
publish = false

[dependencies]
anyhow = "=1.0.104"
chrono = { version = "=0.4.45", features = ["serde"] }
dialoguer = "=0.12.0"
env_logger = "=0.11.11"
futures = "=0.3.34"
indicatif = "=0.18.6"
log = "=0.4.35"
reqwest = { version = "=0.12.28", default-features = false, features = ["json", "cookies", "rustls-tls"] }
reqwest_cookie_store = "=0.9.0"
serde = { version = "=1.0.229", features = ["derive"] }
serde_json = "=1.0.154"
serde_repr = "=0.1.21"
tokio = { version = "=1.54.1", features = ["full"] }
