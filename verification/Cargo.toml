[package]
name = "laberinto"
version = "0.1.0"
edition = "2021"
publish = false

[dependencies]
image = { version = "=0.25.10", default-features = false, features = ["png", "jpeg", "bmp"] }
minifb = "=0.27.0"
nalgebra-glm = "=0.19.0"
once_cell = "=1.21.4"
rodio = "=0.20.1"
