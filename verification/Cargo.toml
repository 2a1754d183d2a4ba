[package]
name = "mcstarter"
version = "0.1.0"
edition = "2021"
publish = false

[dependencies]
yaml-rust = "*"
sha2 = "*"
hex = "*"
anyhow = "*"
reqwest = { version = "*", default-features = false, features = ["blocking"] }
clap = { version = "*", features = ["derive"] }
