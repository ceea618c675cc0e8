[package]
name = "image_mapper"
version = "0.1.0"
edition = "2021"
publish = false

[dependencies]
clap = "*"
kamadak-exif = "*"
image = "*"
