[package]
name = "tool_stream"
version = "0.1.0"
edition = "2021"
publish = false

[dependencies]
serde_json = { version = "*", features = ["preserve_order"] }
serde = { version = "*", features = ["derive"] }
thiserror = "*"
futures = "*"
tokio = { version = "*", features = ["rt", "macros"] }
tokio-stream = "*"
