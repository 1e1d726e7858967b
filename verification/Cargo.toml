[package]
name = "hintkit"
version = "0.0.0"
edition = "2021"
publish = false

[dependencies]
anyhow = "1"
clap = { version = "4", features = ["derive"] }
crossbeam-channel = "0.5"
crossterm = "0.28"
include_dir = "0.7"
portable-pty = "0.8"
serde = { version = "1", features = ["derive"] }
serde_json = "1"
signal-hook = "0.3"
tracing = "0.1"
