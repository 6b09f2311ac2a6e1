[package]
name = "komodo_ingress"
version = "0.1.0"
edition = "2021"
publish = false

[dependencies]
anyhow = "1"
axum = "0.8"
bson = "2"
serde = { version = "1", features = ["derive"] }
serde_json = "1"
