[package]
name = "image3d"
version = "0.1.0"
edition = "2021"
publish = false

[dependencies]
anyhow = "1"
clap = { version = "4", features = ["derive"] }
colored = "2"
image = { version = "0.25", default-features = false, features = ["png", "gif", "jpeg", "bmp", "tiff", "webp"] }
serde = { version = "1", features = ["derive"] }
serde_json = "1"
