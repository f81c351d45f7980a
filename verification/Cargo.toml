[package]
name = "canvas"
version = "0.1.0"
edition = "2021"
publish = false

[dependencies]
grid = "*"
glam = "*"
eframe = { version = "0.31", default-features = false, features = ["glow", "default_fonts", "x11", "wayland"] }
arboard = "3"
rfd = "0.15"
image = { version = "0.25", default-features = false, features = ["png"] }

[dev-dependencies]
rand = "0.8"
