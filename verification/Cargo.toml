[package]
name = "quadtree"
version = "0.1.0"
edition = "2021"
publish = false

[dependencies]
num-traits = "0.2"
rand = "0.7"
rand_distr = "0.2"
sfml = "0.15"
