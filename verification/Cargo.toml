[package]
name = "chord_ring"
version = "0.1.0"
edition = "2021"
publish = false

[dependencies]
indexmap = "2"
tokio = { version = "1", features = ["full"] }
clap = { version = "4", features = ["derive"] }
serde = { version = "1", features = ["derive"] }
bincode = "1"
hostname = "0.4"
