[package]
name = "youtube_social_network"
version = "0.1.0"
edition = "2021"
publish = false

[dependencies]
csv = "1"
plotters = "0.3"
rand = "0.8"
rayon = "1"
