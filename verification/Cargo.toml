[package]
name = "multithread_raycaster_game"
version = "0.1.0"
edition = "2021"
publish = false

[dependencies]
ahash = "0.8"
image = { version = "0.25", default-features = false, features = ["png"] }
fontdue = "0.9"
glam = "0.29"
dot_vox = "5"
rayon = "1"
winit = "0.30"
softbuffer = "0.4"
puffin = "0.19"
puffin_http = "0.16"
clap = { version = "4", features = ["cargo"] }
