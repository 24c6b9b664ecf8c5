[package]
name = "lint_quality"
version = "0.1.0"
edition = "2021"
publish = false

[dependencies]
regex = "=1.13.1"
glob = "=0.3.4"
anyhow = "=1.0.104"
axum = "=0.8.9"
chrono = { version = "=0.4.45", features = ["serde"] }
clap = { version = "=4.6.7", features = ["derive"] }
colored = "=3.1.1"
crossterm = "=0.29.0"
ignore = "=0.4.34"
mime_guess = "=2.0.5"
open = "=5.4.5"
ratatui = "=0.30.2"
rust-embed = { version = "=8.13.0", features = ["interpolate-folder-path"] }
serde = { version = "=1.0.229", features = ["derive"] }
serde_json = "=1.0.154"
tokio = { version = "=1.54.1", features = ["rt-multi-thread", "net", "signal", "macros"] }
toml = "=1.1.8"
