[package]
name = "monochrome_quadtree"
version = "0.1.0"
edition = "2021"
publish = false

[dependencies]
heapless = "0.8"
bitvec = "1"
argh = "0.1"
embedded-graphics = "0.8"
