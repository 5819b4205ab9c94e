[package]
name = "rbckp"
version = "0.1.0"
edition = "2021"
publish = false

[dependencies]
anyhow = "1"
blake3 = "1"
clap = { version = "4", features = ["derive"] }
config = { version = "*", default-features = false, features = ["ini"] }
serde = { version = "1", features = ["derive"] }
