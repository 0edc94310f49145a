[package]
name = "sorter"
version = "0.1.0"
edition = "2021"
publish = false

[dependencies]
fxhash = "0.2"
rand = "0.9"
rayon = "1"
