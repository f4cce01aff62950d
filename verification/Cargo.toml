[package]
name = "mara"
version = "0.1.0"
edition = "2021"
publish = false

[dependencies]
arc-swap = "1"
base64 = "0.22"
bincode = { version = "2", features = ["serde"] }
bytes = "1"
chrono = { version = "0.4", features = ["serde"] }
clap = { version = "4", features = ["derive"] }
crc32c = "0.6"
nalgebra = "0.33"
parking_lot = "0.12"
rand = "0.8"
rand_chacha = "0.3"
rayon = "1"
roaring = { version = "0.10", features = ["serde"] }
serde = { version = "1", features = ["derive"] }
serde_json = "1"
thiserror = "2"
tokio = { version = "1", features = ["full"] }
tokio-util = { version = "0.7", features = ["codec"] }
tracing-subscriber = { version = "0.3", features = ["env-filter"] }
utoipa = "5"
uuid = { version = "1", features = ["v4", "serde"] }
wide = "0.7"
