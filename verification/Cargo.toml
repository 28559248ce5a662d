[package]
name = "flower_geometry"
version = "0.1.0"
edition = "2021"
publish = false

[dependencies]
anyhow = "1"
colorgrad = "*"
glam = "*"
image = { version = "*", default-features = false, features = ["png"] }
imageproc = { version = "*", default-features = false }
noise = "*"
palette = "*"
rand = "0.8"
rand_chacha = "0.3"
rand_core = "0.6"
