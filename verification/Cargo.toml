[package]
name = "secondary_store"
version = "0.1.0"
edition = "2021"
publish = false

[dependencies]
moka = { version = "=0.12.16", features = ["future"] }
parking_lot = "=0.12.5"
thiserror = "=2.0.21"
tokio = { version = "=1.53.2", features = ["fs", "io-util", "rt", "sync"] }
