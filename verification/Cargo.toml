[package]
name = "sva_core"
version = "0.1.0"
edition = "2021"
publish = false

[dependencies]
anyhow = "=1.0.104"
clap = { version = "=4.6.7", features = ["derive"] }
crossterm = "0.28"
fuzzy-matcher = "=0.3.7"
ratatui = "0.29"
serde = { version = "=1.0.229", features = ["derive"] }
serde_json = "=1.0.154"
sv-parser = "=0.13.5"
wellen = "=0.25.7"
