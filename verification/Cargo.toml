[package]
name = "cfr_solver"
version = "0.1.0"
edition = "2021"
publish = false

[dependencies]
crossbeam = "0.8"
fastrand = "2"
rustc-hash = "2"
tinyvec = "1"
