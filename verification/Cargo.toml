[package]
name = "wildfire"
version = "0.1.0"
edition = "2021"
publish = false

[dependencies]
rand = { version = "0.9", features = ["small_rng"] }
glfw = "*"
glint = "*"
tobj = "*"
