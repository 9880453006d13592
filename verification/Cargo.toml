[package]
name = "kcm"
version = "0.1.0"
edition = "2021"
publish = false

[dependencies]
blake3 = "=1.8.7"
zstd = "=0.13.4"
lz4 = "=1.28.1"
aes-gcm = "=0.10.3"
getrandom = "=0.2.17"
log = "=0.4.35"
rayon = "=1.12.0"
tokio = { version = "=1.54.1", features = ["rt-multi-thread"] }
parking_lot = "=0.12.5"
serde_json = "=1.0.154"
thiserror = "=2.0.21"
reqwest = { version = "=0.12.28", default-features = false, features = ["blocking", "json"] }
actix-web = "=4.18.1"
serde = { version = "=1.0.229", features = ["derive"] }
env_logger = "=0.11.11"
ahash = "0.8"

[dev-dependencies]
