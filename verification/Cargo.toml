[package]
name = "minecraft_rust"
version = "0.1.0"
edition = "2021"
publish = false

[dependencies]
glium = "0.29"
glm = "0.2"
noise = "0.7"
rand = "0.8"
rand_xoshiro = "0.6"
image = { version = "0.23", default-features = false, features = ["png"] }
stopwatch = "0.0.7"
