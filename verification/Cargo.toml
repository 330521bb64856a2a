[package]
name = "rc"
version = "0.1.0"
edition = "2021"
publish = false

[dependencies]
clap = { version = "4", features = ["derive"] }
glob = "0.3"
humansize = "2"
serde = { version = "1", features = ["derive"] }
serde_json = "1"
