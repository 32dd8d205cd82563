[package]
name = "vapix_relay"
version = "0.1.0"
edition = "2021"
publish = false

[dependencies]
serde_json = "1"
axum = "0.8"
tokio = { version = "1", features = ["rt-multi-thread", "macros", "net"] }
log = "0.4"
tower-http = { version = "0.6", features = ["trace"] }
anyhow = "1"
thiserror = "2"
acap-logging = "0.1"
