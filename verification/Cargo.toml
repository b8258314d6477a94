[package]
name = "fri_prover"
version = "0.1.0"
edition = "2021"
publish = false

[dependencies]
p3-util = "*"
p3-field = "*"
p3-matrix = "*"
p3-commit = "*"
p3-challenger = "*"
