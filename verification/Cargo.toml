[package]
name = "kmeans_color_gpu"
version = "0.1.0"
edition = "2021"
publish = false

[dependencies]
anyhow = "=1.0.104"
bytemuck = { version = "=1.25.2", features = ["extern_crate_alloc"] }
clap = { version = "=4.6.7", features = ["derive"] }
codespan-reporting = "=0.13.1"
env_logger = "=0.11.11"
image = { version = "=0.25.10", default-features = false, features = ["png", "jpeg"] }
log = "=0.4.34"
naga = { version = "=30.0.1", features = ["wgsl-in", "stderr", "termcolor"] }
palette = "=0.7.7"
pathdiff = "0.2"
pollster = "=1.0.1"
regex = "=1.13.1"
rgb = "=0.8.53"
wgpu = "=30.0.1"
