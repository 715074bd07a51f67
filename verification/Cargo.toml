[package]
name = "fractal"
version = "0.1.0"
edition = "2021"
publish = false

[dependencies]
lz4 = "*"
base64 = "*"
tokio = { version = "*", features = ["rt-multi-thread", "macros", "sync", "net", "time", "signal"] }
axum = { version = "*", features = ["ws"] }
serde = { version = "*", features = ["derive"] }
serde_json = "*"
redis = "*"
reqwest = { version = "*", default-features = false, features = ["json"] }
