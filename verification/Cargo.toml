[package]
name = "imgdedup"
version = "0.1.0"
edition = "2021"
publish = false

[dependencies]
clap = { version = "*", features = ["derive"] }
image = "*"
image_hasher = "*"
img2avif = "*"
indicatif = "*"
rayon = "*"
uuid = { version = "*", features = ["v7"] }
