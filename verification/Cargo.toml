[package]
name = "notelog"
version = "0.1.0"
edition = "2021"
publish = false

[dependencies]
comrak = { version = "=0.44.0", default-features = false }
chrono = "=0.4.45"
axum = { version = "=0.8.9", features = ["multipart"] }
tokio = { version = "=1.53.2", features = ["full"] }
tower-http = { version = "=0.7.1", features = ["fs"] }
tracing = "=0.1.44"
tracing-subscriber = "=0.3.23"
clap = { version = "=4.6.7", features = ["derive"] }
serde = { version = "=1.0.229", features = ["derive"] }
base64 = "=0.23.1"
