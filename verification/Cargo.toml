[package]
name = "ouisync_core"
version = "0.1.0"
edition = "2021"
publish = false

[dependencies]
sha3 = "=0.10.9"
hex = "=0.4.3"
slab = "=0.4.12"
rand = "=0.8.8"
tokio = { version = "=1.54.1", features = ["sync", "time", "rt", "macros", "net", "io-util"] }
serde = { version = "=1.0.229", features = ["derive"] }
bincode = "=1.3.3"
camino = "=1.2.6"
tracing = "=0.1.44"
thiserror = "=1.0.69"
backoff = "0.4"
