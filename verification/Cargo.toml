[package]
name = "raytracer"
version = "0.1.0"
edition = "2021"
publish = false

[dependencies]
crc32fast = "1"
miniz_oxide = "0.8"
glam = "0.30"
rand = "0.9"
rayon = "1"
bon = "3"
