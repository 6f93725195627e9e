[package]
name = "vrm"
version = "0.1.0"
edition = "2021"
publish = false

[dependencies]
serde_json = "=1.0.154"
serde = { version = "=1.0.229", features = ["derive"] }
fancy-regex = "=0.20.0"
petgraph = "=0.8.3"
graph-cycles = "=0.3.0"
itertools = "=0.15.0"
anyhow = "=1.0.104"
clap = { version = "=4.6.7", features = ["derive"] }
tokio = { version = "=1.54.1", features = ["macros", "rt-multi-thread"] }
js-sandbox = "=0.1.6"
