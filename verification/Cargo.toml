[package]
name = "advent_of_code"
version = "0.1.0"
edition = "2021"
publish = false

[dependencies]
outils = "*"
bit-set = "*"
nom = "7"
petgraph = "*"
num = "*"
num_enum = "*"
rayon = "*"
strum = "*"
strum_macros = "*"
