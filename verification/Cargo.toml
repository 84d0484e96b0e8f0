[package]
name = "tin"
version = "0.1.0"
edition = "2021"
publish = false

[dependencies]
fst = "0.4"
rayon = "1"
rustc-hash = "2"
unicode-normalization = "0.1"
unicode-segmentation = "1"
