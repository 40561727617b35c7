[package]
name = "maze_generator"
version = "0.1.0"
edition = "2021"
publish = false

[dependencies]
ink = "=5.0.0"
regex = "=1.13.1"
svg2pdf = "=0.9.1"
xmlwriter = "=0.1.0"
