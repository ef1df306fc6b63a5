[package]
name = "belinda"
version = "0.1.0"
edition = "2021"
publish = false

[dependencies]
roaring = "0.10"
anyhow = "1"
itertools = "0.10"
rayon = "1"
polars = { version = "0.26", features = ["lazy", "json"] }
pyo3 = "0.17"
arrow2 = "0.15"
