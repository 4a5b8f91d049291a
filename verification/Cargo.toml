[package]
name = "firq"
version = "0.1.3"
edition = "2021"
publish = false

[dependencies]
actix-web = "4"
axum = "0.8"
futures-core = "0.3"
parking_lot = "0.12"
serde_json = "1"
tokio = { version = "1", features = ["full"] }
tower = { version = "0.5", features = ["util"] }
tower-service = "0.3"
