[package]
name = "compiler"
version = "0.1.0"
edition = "2021"
publish = false

[dependencies]
owned_chars = "*"
itertools = "*"
anyhow = "1"
clap = { version = "4", features = ["derive"] }
