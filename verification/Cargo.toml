[package]
name = "proxima"
version = "0.1.0"
edition = "2021"
publish = false

[dependencies]
async-trait = "0.1"
bincode = "1"
bloomfilter = "1"
chrono = { version = "0.4", features = ["serde"] }
clap = { version = "4", features = ["derive"] }
dashmap = "5"
ed25519-dalek = "1"
geohash = "*"
haversine = "*"
lru = "0.12"
nalgebra = "*"
rand = "0.8"
ring = "0.17"
serde = { version = "1", features = ["derive"] }
spade = "1"
thiserror = "1"
tokio = { version = "1", features = ["full"] }
toml = "0.8"
tracing = "0.1"
tracing-subscriber = "0.3"
uuid = { version = "1", features = ["v4"] }
