[package]
name = "snotra_core"
version = "0.1.0"
edition = "2021"
publish = false

[dependencies]
fuzzy-matcher = "*"
dirs = "*"
serde = { version = "*", features = ["derive"] }
toml = "*"
