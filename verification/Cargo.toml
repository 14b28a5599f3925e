[package]
name = "dft"
version = "0.1.0"
edition = "2021"
publish = false

[dependencies]
p3-field = "*"
p3-matrix = "*"
p3-maybe-rayon = { version = "*", features = ["parallel"] }
