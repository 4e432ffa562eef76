[package]
name = "qsimulator"
version = "0.5.0"
edition = "2021"
publish = false

[dependencies]
num-complex = "0.4"

[dev-dependencies]
approx = "0.5"
