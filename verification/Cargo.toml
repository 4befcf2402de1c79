[package]
name = "glance"
version = "0.1.0"
edition = "2021"
publish = false

[dependencies]
image = "*"
minifb = "*"
rayon = "*"
derive_more = { version = "*", features = ["from", "display"] }
