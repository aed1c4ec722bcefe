[package]
name = "box_intersect_ze"
version = "0.1.0"
edition = "2021"
publish = false

[dependencies]
rand = { version = "=0.8.8", default-features = false, features = ["std_rng"] }
rand_chacha = { version = "=0.3.1", default-features = false }
