[package]
name = "msm"
version = "0.1.0"
edition = "2021"
publish = false

[dependencies]
ff = "=0.13.1"
halo2curves = "=0.9.0"
rayon = "=1.12.0"

[dev-dependencies]
rand_core = { version = "=0.6.4", features = ["getrandom"] }
