[package]
name = "nemo_store"
version = "0.1.0"
edition = "2021"
publish = false

[dependencies]
petgraph = "*"
serde = { version = "1", features = ["derive"] }
serde_json = "1"
thiserror = "*"
clap = { version = "4", features = ["derive", "cargo"] }
colored = "*"
log = "0.4"
tokio = { version = "1", features = ["rt", "macros"] }
