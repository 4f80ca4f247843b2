[package]
name = "redis_hash_broker"
version = "0.1.0"
edition = "2021"
publish = false

[dependencies]
actix = "=0.13.5"
actix-http = { version = "=3.19.0", features = ["ws"] }
actix-web = { version = "=4.18.1", default-features = false, features = ["ws"] }
actix-web-actors = "=4.3.1"
log = "=0.4.34"
redis = "=1.8.0"
serde = { version = "=1.0.229", features = ["derive"] }
serde_json = "=1.0.154"
