[package]
name = "pack_traverse"
version = "0.1.0"
edition = "2021"
publish = false

[dependencies]
git-features = "0.3"
git-object = "0.3"
