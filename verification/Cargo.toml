[package]
name = "raytracer"
version = "0.1.0"
edition = "2021"
publish = false

[dependencies]
rand = "0.7"
image = { version = "0.23", default-features = false, features = ["png"] }
imageproc = "0.22"
rusttype = "0.9"
indicatif = "0.15"
threadpool = "1.8"
