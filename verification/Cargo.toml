[package]
name = "yancy"
version = "0.1.0"
edition = "2021"
publish = false

[dependencies]
image = { version = "0.25", default-features = false, features = ["jpeg", "png", "tiff", "webp"] }
imageproc = { version = "0.25", default-features = false }
clap = { version = "4", features = ["derive"] }
cxx = "1"
nalgebra = "0.32"
