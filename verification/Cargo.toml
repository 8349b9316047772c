[package]
name = "skillscripts"
version = "0.1.0"
edition = "2021"
publish = false

[dependencies]
anyhow = "=1.0.104"
clap = { version = "=4.6.7", features = ["derive"] }
comfy-table = "=8.0.1"
crossterm = "=0.29.0"
dirs = "=7.0.0"
dunce = "=1.0.5"
fuzzy-matcher = "=0.3.7"
ignore = "=0.4.34"
path-clean = "=1.0.1"
ratatui = "=0.30.2"
rayon = "=1.12.0"
rmcp = { version = "=3.8.0", features = ["transport-io"] }
serde = { version = "=1.0.229", features = ["derive"] }
serde_json = "=1.0.154"
serde_yaml = "=0.9.34"
skim = "=5.9.0"
syntect = "=5.3.0"
tokio = { version = "=1.54.1", features = ["rt-multi-thread"] }
typed-path = "=0.13.0"

[dev-dependencies]
