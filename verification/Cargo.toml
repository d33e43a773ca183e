[package]
name = "lnp2"
version = "0.1.0"
edition = "2021"
publish = false

[dependencies]
axum = { version = "=0.8.9", features = ["ws"] }
tokio = { version = "=1.54.1", features = ["full"] }
serde = { version = "=1.0.229", features = ["derive"] }
serde_json = "=1.0.154"
toml = "=0.8.23"
tower-http = { version = "=0.6.11", features = ["cors"] }
tracing = "=0.1.44"
tracing-subscriber = "=0.3.23"
tokio-serial = "=5.5.0"
thiserror = "=2.0.21"
quick-xml = { version = "=0.37.5", features = ["serialize"] }
regex = "1"
