[package]
name = "tiled_m31"
version = "0.1.0"
edition = "2021"
publish = false

[dependencies]
rayon = "*"
itertools = "*"
p3-circle = "*"
p3-field = "*"
p3-mersenne-31 = "*"
p3-util = "*"
