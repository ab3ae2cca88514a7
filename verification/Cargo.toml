[package]
name = "crater_triage"
version = "0.1.0"
edition = "2021"
publish = false

[dependencies]
regex = "=1.13.1"
serde = { version = "=1.0.229", features = ["derive"] }
serde_json = "=1.0.151"
toml = "=0.8.23"
tokio = { version = "=1.53.2", features = ["full"] }
futures = "=0.3.34"
reqwest = { version = "=0.12.28", default-features = false, features = ["rustls-tls"] }
log = "=0.4.34"
env_logger = "=0.11.11"
indicatif = "=0.18.6"
indicatif-log-bridge = "=0.2.3"
thiserror = "=2.0.21"
