[package]
name = "webrender_surface"
version = "0.1.0"
edition = "2021"
publish = false

[dependencies]
rustc-hash = "2"
euclid = "0.22"
