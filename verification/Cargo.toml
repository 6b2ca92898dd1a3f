[package]
name = "topo_core"
version = "0.1.0"
edition = "2021"
publish = false

[dependencies]
tokio = { version = "*", features = ["rt-multi-thread", "macros", "sync", "time"] }
reqwest = { version = "*", default-features = false }
tiff = "*"

[dev-dependencies]
serde_json = "*"
