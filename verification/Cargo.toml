[package]
name = "msp_rigid_body"
version = "0.1.0"
edition = "2021"
publish = false

[dependencies]
rapier3d-f64 = "=0.36.1"
mimalloc = "=0.1.52"
