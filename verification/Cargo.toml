[package]
name = "cactus_sift"
version = "0.1.0"
edition = "2021"
publish = false

[dependencies]
image = "0.25"
imageproc = "0.25"
nalgebra = "0.33"
clap = { version = "4", features = ["derive"] }
