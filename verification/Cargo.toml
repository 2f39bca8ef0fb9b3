[package]
name = "gridwords"
version = "0.1.0"
edition = "2021"
publish = false

[dependencies]
ndarray = "0.15"
rand = "0.8"
rayon = "1"
dashmap = "5"
