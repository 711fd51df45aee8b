[package]
name = "tct"
version = "0.1.0"
edition = "2021"
publish = false

[dependencies]
poseidon377 = "*"
decaf377 = "*"
anyhow = "1"
prost = "0.13"
serde = { version = "1", features = ["derive"] }
tokio = { version = "1", features = ["sync", "time", "rt", "macros"] }
tonic = "0.12"
tracing = "0.1"
