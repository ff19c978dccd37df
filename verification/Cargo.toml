[package]
name = "circuitsim"
version = "0.1.0"
edition = "2021"
publish = false

[dependencies]
nalgebra = "*"
num-complex = "*"
thiserror = "*"
clap = { version = "4", features = ["derive"] }
