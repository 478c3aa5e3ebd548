[package]
name = "game"
version = "0.1.0"
edition = "2021"
publish = false

[dependencies]
block-mesh = "0.2"
ron = "0.8"
serde = { version = "1", features = ["derive"] }
crossbeam = "0.8"
