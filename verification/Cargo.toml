[package]
name = "boom_moc_index"
version = "0.1.0"
edition = "2021"
publish = false

[dependencies]
anyhow = "1"
base64 = "0.22"
cdshealpix = "*"
chrono = "0.4"
clap = { version = "4", features = ["derive"] }
comfy-table = "7"
dotenvy = "0.15"
lru = "0.12"
moc = "*"
parking_lot = "0.12"
rand = "0.9"
rdkafka = { version = "0.36", features = ["ssl"] }
redis = { version = "0.27", features = ["aio", "tokio-comp", "connection-manager"] }
reqwest = { version = "0.12", default-features = false, features = ["rustls-tls"] }
serde = { version = "1", features = ["derive"] }
serde_json = "1"
tokio = { version = "1", features = ["full"] }
tracing = "0.1"
tracing-subscriber = { version = "0.3", features = ["env-filter"] }
