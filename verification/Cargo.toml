[package]
name = "mock_routes"
version = "0.1.0"
edition = "2021"
publish = false

[dependencies]
axum = "*"
clap = { version = "*", features = ["derive"] }
inquire = "*"
tokio = { version = "*", features = ["rt-multi-thread", "net", "macros"] }
