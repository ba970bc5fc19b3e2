[package]
name = "file_service"
version = "0.1.0"
edition = "2021"
publish = false

[dependencies]
actix-web = "4"
axum = { version = "0.8", features = ["multipart"] }
clap = { version = "4", features = ["derive"] }
env_logger = "0.11"
log = "0.4"
serde = { version = "1", features = ["derive"] }
serde_json = "1"
tokio = { version = "1", features = ["full"] }
tokio-stream = "0.1"
tower-http = { version = "0.6", features = ["limit", "trace"] }
