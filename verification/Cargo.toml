[package]
name = "ray_tracing_utils"
version = "0.1.0"
edition = "2021"
publish = false

[dependencies]
rand = "0.8"
dyn-clone = "1"
log = "0.4"
winit = "0.27"
pixels = "0.10"
winit_input_helper = "0.13"
