[package]
name = "quantaforge"
version = "0.1.0"
edition = "2021"
publish = false

[dependencies]
serde = { version = "1", features = ["derive"] }
serde_json = "1"
serde_yaml = "0.9"
num-complex = { version = "0.4", features = ["serde"] }
rand = "0.8"
thiserror = "2"
anyhow = "1"
clap = { version = "4", features = ["derive"] }
axum = "0.8"
tokio = { version = "1", features = ["macros", "rt-multi-thread", "net", "sync"] }
uuid = { version = "1", features = ["v4"] }
tracing-subscriber = "0.3"
