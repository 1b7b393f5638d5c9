[package]
name = "cs_ping"
version = "0.1.0"
edition = "2021"
publish = false

[dependencies]
anyhow = "=1.0.104"
chrono = "=0.4.45"
colorgrad = "=0.7.2"
env_logger = "=0.11.11"
futures = "=0.3.34"
indicatif = "=0.17.11"
log = "=0.4.35"
maxminddb = "=0.26.0"
owo-colors = "=4.4.0"
rand = "=0.9.5"
rand_xoshiro = "=0.7.0"
regex-syntax = "=0.8.11"
reqwest = { version = "=0.12.28", default-features = false, features = ["rustls-tls"] }
serde = { version = "=1.0.229", features = ["derive"] }
serde_json = "=1.0.154"
surge-ping = "=0.8.4"
tokio = { version = "=1.54.1", features = ["full"] }
trust-dns-resolver = { version = "=0.23.2", features = ["dns-over-rustls"] }
zip = { version = "=2.6.1", default-features = false }
