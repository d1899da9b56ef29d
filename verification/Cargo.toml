[package]
name = "path_follower"
version = "0.1.0"
edition = "2021"
publish = false

[dependencies]
nalgebra = "*"
