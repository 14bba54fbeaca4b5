[package]
name = "grid_robot"
version = "0.1.0"
edition = "2021"
publish = false

[dependencies]
proconio = "0.4"
