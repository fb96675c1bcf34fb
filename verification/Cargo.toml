[package]
name = "p2panda_auth"
version = "0.1.0"
edition = "2021"
publish = false

[dependencies]
petgraph = "=0.8.3"
serde = { version = "1", features = ["derive"] }
thiserror = "2"
