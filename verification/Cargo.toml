[package]
name = "tract_core"
version = "0.1.0"
edition = "2021"
publish = false

[dependencies]
anyhow = "1"
clap = "3.2"
lazy_static = "1"
ndarray = "0.15"
ndarray-npy = { version = "0.8", default-features = false, features = ["npz"] }
num-traits = "0.2"
rand = "0.8"
