[package]
name = "fractonkv"
version = "0.1.0"
edition = "2021"
publish = false

[dependencies]
twox-hash = "*"
tokio = { version = "1", features = ["full"] }
tokio-util = { version = "0.7", features = ["codec"] }
bytes = "1"
futures = "0.3"
num_cpus = "1"
ulid = "1"

[dev-dependencies]
redis-protocol = "*"
