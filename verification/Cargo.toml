[package]
name = "afb_dds"
version = "0.1.0"
edition = "2021"
publish = false

[dependencies]
anyhow = "1"
directxtex = "*"
image = { version = "0.25", default-features = false, features = ["png", "jpeg", "bmp", "tga", "gif", "webp", "ico", "tiff", "qoi"] }
