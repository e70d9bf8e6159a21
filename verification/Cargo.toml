[package]
name = "swarm_sim"
version = "0.1.0"
edition = "2021"
publish = false

[dependencies]
glam = "*"
sdl2 = "*"
smallvec = "1"
