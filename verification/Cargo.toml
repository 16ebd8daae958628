[package]
name = "ccg"
version = "0.1.0"
edition = "2021"
publish = false

[dependencies]
indexmap = "2"
rayon = "1"
rustc-hash = "2"
thiserror = "2"
