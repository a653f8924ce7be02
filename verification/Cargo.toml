[package]
name = "executor"
version = "0.1.0"
edition = "2021"
publish = false

[dependencies]
ed25519-dalek = "=1.0.1"
rand = "=0.7.3"
serde = { version = "=1.0.229", features = ["derive"] }
