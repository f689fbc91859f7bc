[package]
name = "ferret_hypergraph"
version = "0.1.0"
edition = "2021"
publish = false

[dependencies]
indexmap = { version = "=1.9.3", features = ["serde"] }
serde = { version = "=1.0.229", features = ["derive"] }
thiserror = "=1.0.69"
