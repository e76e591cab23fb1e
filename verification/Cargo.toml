[package]
name = "mathlex-eval"
version = "0.2.1"
edition = "2021"
publish = false

[dependencies]
mathlex = { version = "0.4", features = ["serde"] }
num-complex = { version = "0.4", features = ["serde"] }
ndarray = "0.16"
thiserror = "2"
serde = { version = "1", features = ["derive"] }
serde_json = "1"
swift-bridge = "0.1"

[dev-dependencies]
approx = "0.5"
