[package]
name = "ow_tracker"
version = "0.1.0"
edition = "2021"
publish = false

[dependencies]
heck = "=0.5.0"
xml = "=1.4.0"
anyhow = "=1.0.104"
clap = { version = "=4.6.7", features = ["derive"] }
dirs = "=7.0.0"
memmap2 = "=0.9.12"
serde = { version = "=1.0.229", features = ["derive"] }
serde_json = "=1.0.154"
tracing = "=0.1.44"
tracing-subscriber = "=0.3.23"
