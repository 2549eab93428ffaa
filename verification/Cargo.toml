[package]
name = "arroyo_state"
version = "0.1.0"
edition = "2021"
publish = false

[dependencies]
anyhow = "1"
async-trait = "0.1"
bincode = { version = "2", features = ["derive"] }
tokio = { version = "1", features = ["sync"] }
