[package]
name = "soft_raster"
version = "0.1.0"
edition = "2021"
publish = false

[dependencies]
gltf = "=1.4.1"
image = { version = "=0.24.9", default-features = false, features = ["jpeg", "png"] }
noto-sans-mono-bitmap = "=0.2.0"
pixels = "=0.13.0"
winit = "=0.28.7"
