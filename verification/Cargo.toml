[package]
name = "nnvis"
version = "0.1.0"
edition = "2021"
publish = false

[dependencies]
regex = "1"
serde_json = "1"
prost = "0.13"
flatbuffers = "24"
clap = { version = "4", features = ["derive"] }
anyhow = "1"
