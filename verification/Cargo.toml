[package]
name = "pixel_snapper"
version = "0.1.0"
edition = "2021"
publish = false

[dependencies]
image = "0.25"
rand = "0.8"
rand_chacha = "0.3"
rand_distr = "0.4"
wasm-bindgen = "0.2"
