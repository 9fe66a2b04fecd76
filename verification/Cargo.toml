[package]
name = "limitador"
version = "0.1.0"
edition = "2021"
publish = false

[dependencies]
ttl_cache = "0.5"
serde = { version = "1", features = ["derive"] }
serde_yaml = "0.8"
tonic = "0.4"
prost = "0.7"
tokio = { version = "1", features = ["macros", "rt-multi-thread", "sync"] }
