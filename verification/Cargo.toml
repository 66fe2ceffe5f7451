[package]
name = "mmdr"
version = "0.1.0"
edition = "2021"
publish = false

[dependencies]
anyhow = "1"
fontdb = "*"
once_cell = "1"
resvg = "*"
usvg = "*"
serde = { version = "1", features = ["derive"] }
ttf-parser = "*"
