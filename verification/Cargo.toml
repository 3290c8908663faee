[package]
name = "rbt"
version = "0.1.0"
edition = "2021"
publish = false

[dependencies]
anyhow = "1"
clap = { version = "4", features = ["derive"] }
itertools = "0.12"
serde = { version = "1", features = ["derive"] }
sled = "0.34"
tokio = { version = "1", features = ["rt-multi-thread", "io-util", "macros"] }
