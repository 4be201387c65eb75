[package]
name = "my_raft"
version = "0.1.0"
edition = "2021"
publish = false

[dependencies]
anyhow = "1"
rand = "0.9"
tokio = { version = "1", features = ["rt-multi-thread", "macros", "time", "sync"] }
tonic = "0.12"
prost = "0.13"
tracing = "0.1"
tracing-subscriber = "0.3"
