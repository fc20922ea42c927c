[package]
name = "nixspace"
version = "0.1.0"
edition = "2021"
publish = false

[dependencies]
glob-match = "*"
serde = { version = "*", features = ["derive"] }
serde_json = "*"
toml = "*"
