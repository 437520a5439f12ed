[package]
name = "b3d2glb"
version = "0.1.0"
edition = "2021"
publish = false

[dependencies]
b3d = "*"
image = "*"
serde_json = "1"
walkdir = "2"
