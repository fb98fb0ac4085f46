[package]
name = "quadtree"
version = "0.1.0"
edition = "2021"
publish = false

[dependencies]
bevy = { version = "0.12", default-features = false }
instant = "0.1"
rand = "0.8"
