[package]
name = "vaayu"
version = "0.1.0"
edition = "2021"
publish = false

[dependencies]
anyhow = "=1.0.104"
base64 = "=0.22.1"
crossterm = "=0.28.1"
dirs = "=5.0.1"
fancy-regex = "=0.14.0"
pulldown-cmark = { version = "=0.12.2", default-features = false }
regex = "=1.13.1"
ropey = "=1.6.1"
serde = { version = "=1.0.229", features = ["derive"] }
serde_json = "=1.0.154"
similar = "=2.7.0"
toml = "=0.8.23"
unicode-segmentation = "=1.13.3"
unicode-width = "=0.1.14"
url = "=2.5.8"
