[package]
name = "tensor"
version = "0.1.0"
edition = "2021"
publish = false

[dependencies]
rayon = "1"
num_cpus = "1"
rand = "0.9"
rand_pcg = "0.9"
rand_distr = "0.5"
