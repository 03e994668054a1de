[package]
name = "mandelbrot"
version = "0.1.0"
edition = "2021"
publish = false

[dependencies]
num = "0.4"
num_cpus = "1"
crossbeam = "0.8"
image = "0.13.0"
