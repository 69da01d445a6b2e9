[package]
name = "voxel_core"
version = "0.1.0"
edition = "2021"
publish = false

[dependencies]
huffman-compress = "*"
bit-vec = "0.6"
tokio = { version = "1", features = ["rt-multi-thread"] }
