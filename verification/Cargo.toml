[package]
name = "zkscan_etl"
version = "0.1.0"
edition = "2021"
publish = false

[dependencies]
alloy-primitives = "*"
anyhow = "*"
axum = "*"
deadpool-postgres = "*"
dotenvy = "*"
futures-util = "*"
rdkafka = "*"
redis = { version = "*", features = ["tokio-comp"] }
serde = { version = "*", features = ["derive"] }
serde_json = "*"
serde_tuple = "*"
tokio = { version = "*", features = ["full"] }
tokio-postgres = "*"
