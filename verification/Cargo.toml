[package]
name = "rekha"
version = "0.1.0"
edition = "2021"
publish = false

[dependencies]
axum = "0.8"
axum-server = { version = "*", features = ["tls-rustls"] }
bincode = "1"
bytemuck = "1"
clap = { version = "4", features = ["derive", "env"] }
crc32fast = "1"
dashmap = "6"
memmap2 = "0.9"
metrics-exporter-prometheus = { version = "*", default-features = false, features = ["http-listener"] }
openraft = { version = "0.9", features = ["serde", "storage-v2"] }
ordered-float = "*"
redb = "2"
reedline = "*"
reqwest = { version = "0.12", default-features = false, features = ["json"] }
roaring = "*"
serde = { version = "1", features = ["derive"] }
serde_json = "1"
subtle = "2"
thiserror = "2"
tokio = { version = "1", features = ["full"] }
tower-http = { version = "0.6", features = ["trace", "limit"] }
tracing = "0.1"
tracing-subscriber = "0.3"
usearch = "2"
uuid = { version = "1", features = ["v4", "serde"] }
wide = "0.7"

[dev-dependencies]
tempfile = "3"
