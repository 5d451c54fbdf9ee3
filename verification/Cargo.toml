[package]
name = "crypto-market"
version = "0.1.0"
edition = "2021"
publish = false

[dependencies]
serde = { version = "1", features = ["derive"] }
serde_json = "1"
base64 = "0.13"
toml = "0.5"
chrono = "0.4"
tokio = { version = "1", features = ["full"] }
axum = { version = "0.5", features = ["ws", "headers"] }
headers = "0.3"
tokio-util = { version = "0.7", features = ["io"] }
tower-http = { version = "0.3", features = ["trace"] }
futures = "0.3"
tracing = "0.1"
tracing-subscriber = "0.3"
anyhow = "1"
thiserror = "1"
notify = "5"
clap = "2"
quiche = "0.12"
ring = "0.16"
mio = { version = "0.8", features = ["net", "os-poll"] }
url = "2"
log = "0.4"
env_logger = "0.9"
lazy_static = "1"
crossbeam-channel = "0.5"
net2 = "0.2"
nanomsg = "0.7"
crypto-msg-parser = "2"
crypto-crawler = "4"
wmjtyd-libstock = "*"
