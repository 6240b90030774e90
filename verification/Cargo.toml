[package]
name = "soa_lab"
version = "0.1.0"
edition = "2021"
publish = false

[dependencies]
bytemuck = "1"
pollster = "0.3"
wgpu = "0.20"
