[package]
name = "image_dedup"
version = "0.1.0"
edition = "2021"

[dependencies]
argh = "0.1"
glob = "0.3"
image = "0.23"
img_hash = "3"
rayon = "1"
