[package]
name = "projekto"
version = "0.1.0"
edition = "2021"
publish = false

[dependencies]
serde = { version = "1", features = ["derive"] }
bincode = "1"
lz4_flex = "0.11"
ron = "0.8"
bracket-noise = "0.8"
once_cell = "1"
