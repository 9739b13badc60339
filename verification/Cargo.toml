[package]
name = "mapreduce"
version = "0.1.0"
edition = "2021"
publish = false

[dependencies]
serde_json = "1"
serde = { version = "1", features = ["derive"] }
anyhow = "1"
futures = "0.3"
tokio = { version = "1", features = ["full"] }
tarpc = { version = "*", features = ["tokio1"] }
