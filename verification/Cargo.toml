[package]
name = "rust_bms"
version = "0.1.0"
edition = "2021"
publish = false

[dependencies]
time = "0.1"
rand = "*"
regex = "*"
walkdir = "*"
image = { version = "*", default-features = false, features = ["png"] }
piston = "*"
piston2d-graphics = "*"
pistoncore-glutin_window = "*"
piston2d-opengl_graphics = "*"
piston-music = "*"
sdl2 = { version = "*", features = ["mixer"] }
ears = "*"
ffmpeg = "*"
