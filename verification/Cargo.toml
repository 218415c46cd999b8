[package]
name = "mini_recsys"
version = "0.1.0"
edition = "2021"
publish = false

[dependencies]
anyhow = "*"
axum = "*"
bincode = "1"
rand = "*"
serde = { version = "*", features = ["derive"] }
serde_json = "*"
sled = "*"
tantivy = "*"
tokio = { version = "*", features = ["full"] }
tower-http = { version = "*", features = ["cors"] }
