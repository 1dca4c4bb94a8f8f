[package]
name = "order_ingest"
version = "0.1.0"
edition = "2021"
publish = false

[dependencies]
serde = { version = "*", features = ["derive"] }
serde_json = "*"
tokio = { version = "*", features = ["macros", "rt-multi-thread"] }
redis = { version = "*", features = ["tokio-comp"] }
poem = "*"
dotenv = "*"
