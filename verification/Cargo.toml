[package]
name = "game"
version = "0.1.0"
edition = "2021"
publish = false

[dependencies]
rand = "0.9"
crossbeam-queue = "0.3"
glam = "*"
wgpu = { version = "*", default-features = false }
enum-derived = "*"
