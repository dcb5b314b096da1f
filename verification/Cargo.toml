[package]
name = "ard-ecs"
version = "0.1.0"
edition = "2021"
publish = false

[dependencies]
num_cpus = "1"
rayon = "1"
