[package]
name = "lab1_poligono"
version = "0.1.0"
edition = "2021"
publish = false

[dependencies]
raylib = "*"
