[package]
name = "fraud_knn"
version = "0.1.0"
edition = "2021"
publish = false

[dependencies]
anyhow = "1"
axum = "0.7"
core_affinity = "0.8"
flate2 = "1"
half = "2"
rand = { version = "0.8", features = ["small_rng"] }
rayon = "1"
serde = { version = "1", features = ["derive"] }
serde_json = "1"
sonic-rs = "*"
tokio = { version = "1", features = ["full"] }
