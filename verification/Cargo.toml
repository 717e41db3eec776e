[package]
name = "pgvectorscale"
version = "0.1.0"
edition = "2021"
publish = false

[dependencies]
memoffset = "0.9"
rand = { version = "0.8", features = ["small_rng"] }
rayon = "1"
rkyv = { version = "0.7", features = ["validation"] }
semver = "1.0"
