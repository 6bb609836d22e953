[package]
name = "vir"
version = "0.1.0"
edition = "2021"
publish = false

[dependencies]
ash = "0.38"
gpu-allocator = { version = "0.27", default-features = false, features = ["vulkan"] }
tracing = "0.1"
