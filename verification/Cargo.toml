[package]
name = "leios-tools"
version = "0.1.0"
edition = "2021"
publish = false

[dependencies]
blake2 = "0.10"
minicbor = { version = "*", features = ["std"] }
rand = "0.9"
serde = { version = "1", features = ["derive"] }
thiserror = "2"
tokio = { version = "1", features = ["sync", "rt", "macros", "time"] }
tracing = "0.1"
