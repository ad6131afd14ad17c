[package]
name = "snoozy"
version = "0.1.0"
edition = "2021"
publish = false

[dependencies]
petgraph = "*"
twox-hash = "1"
tokio = { version = "1", features = ["rt", "rt-multi-thread"] }
futures = "0.3"
async-trait = "0.1"
lazy_static = "1"
failure = "0.1"
tracing = "0.1"
pretty-bytes = "0.2"
bincode = "1"
serde = { version = "1", features = ["derive"] }
serde_derive = "1"
abomonation = "0.7"
