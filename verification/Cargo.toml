[package]
name = "burau_search"
version = "0.1.0"
edition = "2021"
publish = false

[dependencies]
hashbrown = "0.14"
rand = { version = "0.8", default-features = false }
rand_pcg = "0.3"
rayon = "1"
