[package]
name = "session_broker"
version = "0.1.0"
edition = "2021"
publish = false

[dependencies]
uuid = { version = "1", features = ["v4"] }
axum = { version = "0.8", features = ["ws"] }
tokio = { version = "1", features = ["full"] }
mongodb = "3"
redis = "*"
prost = "*"
serde = { version = "1", features = ["derive"] }
serde_json = "1"
futures = "0.3"
tower-http = { version = "0.6", features = ["cors"] }
