[package]
name = "speech_denoise"
version = "0.1.0"
edition = "2021"
publish = false

[dependencies]
anyhow = "1"
dasp = { version = "0.11", features = ["all"] }
hound = "3"
nnnoiseless = "*"
once_cell = "1"
