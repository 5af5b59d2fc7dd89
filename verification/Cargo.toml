[package]
name = "dist_sparse"
version = "0.1.0"
edition = "2021"
publish = false

[dependencies]
num = "=0.4.3"
lapacke = "=0.5.0"
rand = "0.8"
rand_chacha = "0.3"
