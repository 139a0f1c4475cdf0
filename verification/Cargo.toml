[package]
name = "calculator_mcp"
version = "0.1.0"
edition = "2021"
publish = false

[dependencies]
bigdecimal = "*"
num-traits = "*"
anyhow = "*"
axum = "*"
tokio = { version = "*", features = ["full"] }
tower = { version = "*", features = ["buffer", "limit", "timeout", "util"] }
tower-http = { version = "*", features = ["request-id", "trace", "catch-panic", "cors", "limit", "util"] }
tracing = "*"
tracing-subscriber = { version = "*", features = ["env-filter", "fmt", "time"] }
config = "*"
serde = { version = "*", features = ["derive"] }
