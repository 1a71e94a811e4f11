[package]
name = "ffmpeg_rs"
version = "0.1.0"
edition = "2021"
publish = false

[dependencies]
vulkano = { version = "0.35", default-features = false }
