[package]
name = "kuzu-storage"
version = "0.1.0"
edition = "2021"
publish = false

[dependencies]
serde_json = "=1.0.154"
hashbrown = "=0.17.1"
serde = { version = "1", features = ["derive"] }
csv = "1"
