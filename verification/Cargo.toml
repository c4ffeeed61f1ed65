[package]
name = "oxideav-tiff"
version = "0.1.0"
edition = "2021"
publish = false

[dependencies]
compcol = { version = "=0.7.8", features = ["zlib", "zstd"] }
oxideav-core = "=0.1.42"
oxideav-mjpeg = "=0.1.14"
oxideav-webp = "=0.3.1"
