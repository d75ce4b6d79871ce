[package]
name = "soft_renderer"
version = "0.1.0"
edition = "2021"
publish = false

[dependencies]
cgmath = "0.18"
sdl2 = "0.37"
time = "0.1"
