[package]
name = "raytracer"
version = "0.1.0"
edition = "2021"
publish = false

[dependencies]
bvh = "0.7"
image = { version = "0.24", default-features = false, features = ["png"] }
indicatif = "0.17"
num = "0.4"
rand = "0.8"
rayon = "1"
