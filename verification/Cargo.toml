[package]
name = "coreba"
version = "0.1.0"
edition = "2021"
publish = false

[dependencies]
clap = { version = "4", features = ["derive"] }
cxx = "1"
indexmap = "2"
itertools = "0.13"
rand = "0.8"
rayon = "1"
thiserror = "1"
