[package]
name = "royal_ur"
version = "0.1.0"
edition = "2021"
publish = false

[dependencies]
bincode = "2"
wgpu = "25"
pollster = "*"
bytemuck = "1"
rayon = "1"
num-traits = "0.2"
