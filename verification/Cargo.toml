[package]
name = "craft_burn"
version = "0.1.0"
edition = "2021"
publish = false

[dependencies]
image = { version = "=0.25.10", default-features = false, features = ["png", "rayon"] }
imageproc = { version = "=0.25.1", default-features = false }
float-ord = "=0.3.2"
burn = { version = "=0.16.1", default-features = false, features = ["std", "wgpu", "cuda-jit"] }
half = "=2.7.1"
