[package]
name = "pacarc"
version = "0.1.0"
edition = "2021"

[dependencies]
anyhow = "1"
clap = { version = "4", features = ["derive"] }
encoding_rs = "0.8"
miniz_oxide = "0.8"
serde = { version = "1", features = ["derive"] }
