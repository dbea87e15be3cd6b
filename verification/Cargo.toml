[package]
name = "mem_etcd"
version = "0.1.0"
edition = "2021"
publish = false

[dependencies]
async-stream = "=0.3.6"
axum = "=0.7.9"
bytes = { version = "=1.12.1", features = ["serde"] }
clap = { version = "=4.6.7", features = ["derive", "env"] }
dashmap = "=6.2.1"
env_logger = "0.11"
flate2 = "=1.1.10"
futures = "0.3"
log = "0.4"
once_cell = "1"
openraft = { version = "=0.9.25", features = ["serde", "storage-v2"] }
prometheus = "=0.13.4"
prost = "=0.13.5"
serde = { version = "1", features = ["derive"] }
serde_json = "1"
tokio = { version = "1", features = ["full"] }
tokio-metrics-collector = "=0.2.3"
tokio-stream = "0.1"
tonic = "=0.12.3"
tower-http = { version = "=0.6.11", features = ["metrics"] }
url = "=2.5.8"
