[package]
name = "policy_cache"
version = "0.1.0"
edition = "2021"
publish = false

[dependencies]
casbin = { version = "=2.20.0", features = ["cached"] }
redis = "=1.7.1"
serde = "=1.0.229"
serde_json = "=1.0.151"
