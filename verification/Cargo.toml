[package]
name = "flop_server"
version = "0.1.0"
edition = "2021"
publish = false

[dependencies]
rand = "=0.8.8"
uuid = { version = "=1.29.0", features = ["v4"] }
axum = { version = "=0.7.9", features = ["multipart"] }
axum-extra = { version = "=0.9.6", features = ["typed-header", "cookie"] }
tokio = { version = "=1.54.1", features = ["full"] }
serde = { version = "=1.0.229", features = ["derive"] }
tracing = "=0.1.44"
tracing-subscriber = "=0.3.23"
tower-http = { version = "=0.5.2", features = ["cors", "trace"] }
metrics = "=0.21.1"
