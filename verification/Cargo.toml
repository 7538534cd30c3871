[package]
name = "box_stacks"
version = "0.1.0"
edition = "2021"
publish = false

[dependencies]
itertools = "0.10.5"
proconio = "0.4"
rand = "0.8.5"
rand_chacha = "0.3.1"
svg = "0.13"
wasm-bindgen = "0.2"
