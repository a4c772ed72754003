[package]
name = "glyphmatcher"
version = "0.1.0"
edition = "2021"
publish = false

[dependencies]
font = "*"
pathfinder_content = "*"
pdf_encoding = "*"
