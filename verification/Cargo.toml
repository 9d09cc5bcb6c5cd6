[package]
name = "ratrun"
version = "0.1.0"
edition = "2021"
publish = false

[dependencies]
rand = "=0.8.8"
serde = { version = "=1.0.229", features = ["derive"] }
serde_json = "=1.0.154"
ratatui = "=0.29.0"
crossterm = "=0.28.1"
rodio = { version = "=0.19.0", default-features = false }
dirs = "=5.0.1"
image = "=0.24.9"
rascii_art = "=0.4.5"
anyhow = "=1.0.104"
