[package]
name = "edfs"
version = "0.1.0"
edition = "2021"
publish = false

[dependencies]
crdt_tree = "=0.0.16"
fastcdc = "=5.0.0"
sha2 = "=0.10.9"
uuid = { version = "=1.29.0", features = ["v5"] }
serde = { version = "=1.0.229", features = ["derive"] }
parking_lot = "=0.12.5"
tokio = { version = "=1.54.1", features = ["rt-multi-thread", "macros", "sync", "time", "signal"] }
clap = { version = "=4.6.7", features = ["derive"] }
tracing = "=0.1.44"
tracing-subscriber = { version = "=0.3.23", features = ["env-filter"] }
futures = "=0.3.34"
async-trait = "=0.1.92"
bincode-next = { version = "=3.1.1", features = ["serde"] }
async-fuser = "=0.17.0"
