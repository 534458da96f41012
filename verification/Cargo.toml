[package]
name = "cctag"
version = "0.1.0"
edition = "2021"
publish = false

[dependencies]
rayon = "1"
thiserror = "2"
image = { version = "0.25", default-features = false, features = ["png"] }
