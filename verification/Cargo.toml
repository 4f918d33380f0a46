[package]
name = "mimir"
version = "0.1.0"
edition = "2021"
publish = false

[dependencies]
float-cmp = "=0.10.0"
indexmap = { version = "=2.14.2", features = ["serde"] }
rand = "=0.10.3"
serde = { version = "=1.0.229", features = ["derive"] }
