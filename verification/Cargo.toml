[package]
name = "advent2022"
version = "0.1.0"
edition = "2021"
publish = false

[dependencies]
anyhow = "1"
colorsys = "0.6"
itertools = "0.10"
reqwest = "0.11"
tokio = { version = "1", features = ["rt-multi-thread"] }
yansi = "0.5"
