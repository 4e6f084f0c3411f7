[package]
name = "pianoroll"
version = "0.1.0"
edition = "2021"
publish = false

[dependencies]
ghakuf = "*"
nom-midi = "*"
pdf-canvas = "*"
