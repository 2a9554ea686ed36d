[package]
name = "tessellation"
version = "0.1.0"
edition = "2021"
publish = false

[dependencies]
bbox = "=0.15.0"
nalgebra = "=0.34.2"
num-traits = "=0.2.19"
rand = "=0.10.3"
smallvec = "=1.16.4"
