[package]
name = "rambda"
version = "0.1.0"
edition = "2021"
publish = false

[dependencies]
anyhow = "*"
crossterm = "*"
dirs = "*"
serde = { version = "*", features = ["derive"] }
serde_yaml = "*"
tui = "*"
