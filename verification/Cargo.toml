[package]
name = "howto"
version = "0.1.0"
edition = "2021"
publish = false

[dependencies]
glam = "=0.30.10"
delaunator = "=1.1.0"
rand = "=0.9.5"
rand_pcg = "=0.9.0"
bluenoise = "=0.2.2"
glow = "=0.13.1"
glutin = "=0.31.3"
glutin-winit = "=0.4.2"
winit = { version = "=0.29.15", default-features = false, features = ["x11", "rwh_05"] }
raw-window-handle = "=0.5.2"
bytemuck = { version = "=1.25.2", features = ["derive"] }
web-time = "=1.1.0"
