[package]
name = "uniformity_scan"
version = "0.1.0"
edition = "2021"
publish = false

[dependencies]
num-bigint = "*"
num-traits = "*"
clap = { version = "*", features = ["derive"] }
pyo3 = "*"
