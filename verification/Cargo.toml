[package]
name = "reflector"
version = "0.1.0"
edition = "2021"
publish = false

[dependencies]
futures = "*"
serde = { version = "*", features = ["derive"] }
tokio = { version = "*", features = ["macros", "rt", "sync", "time"] }
