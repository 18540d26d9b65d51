[package]
name = "bake_codepoints"
version = "0.1.0"
edition = "2021"
publish = false

[dependencies]
fontdue = "*"
png = "*"
ttf-parser = "*"
usvg = "*"
