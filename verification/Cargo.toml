[package]
name = "orbital_sim"
version = "0.1.0"
edition = "2021"
publish = false

[dependencies]
csv = "1"
glam = "0.28"
rand = "0.8"
rand_distr = "0.4"
bytemuck = { version = "1", features = ["derive"] }
image = { version = "0.24", default-features = false, features = ["png"] }
pollster = "0.3"
env_logger = "0.11"
anyhow = "1"
