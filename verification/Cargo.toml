[package]
name = "bril_passes"
version = "0.1.0"
edition = "2021"
publish = false

[dependencies]
slotmap = "=1.0.7"
serde = { version = "=1.0.229", features = ["derive"] }
serde_json = "=1.0.154"
argh = "=0.1.19"
snafu = "=0.8.9"
owo-colors = "*"
inform = "*"
