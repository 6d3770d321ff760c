[package]
name = "metal_merkle"
version = "0.1.0"
edition = "2021"
publish = false

[dependencies]
plonky2_field = "*"
plonky2_maybe_rayon = "*"
itertools = "*"
once_cell = "1"
lazy_static = "1"
metal = "0.27"
