[package]
name = "image_processing"
version = "0.1.0"
edition = "2021"
publish = false

[dependencies]
clap = { version = "4", features = ["derive"] }
env_logger = "0.11"
image = { version = "0.25", default-features = false, features = ["png", "jpeg", "gif", "bmp", "tiff", "webp"] }
libloading = "0.8"
log = "0.4"
serde = { version = "1", features = ["derive"] }
serde_yaml = "0.9"
