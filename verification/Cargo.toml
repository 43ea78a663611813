[package]
name = "concave_hull"
version = "0.1.0"
edition = "2021"
publish = false

[dependencies]
anyhow = "=1.0.104"
clap = { version = "=4.6.7", features = ["derive"] }
csv = "=1.4.0"
imageproc = "=0.27.0"
nalgebra = "0.34"
num-traits = "=0.2.19"
parry2d = "0.25"
parry2d-f64 = "0.25"
