[package]
name = "stl2thumbnail"
version = "0.1.0"
edition = "2021"
publish = false

[dependencies]
anyhow = "1"
byteorder = "1"
clap = "2"
gif = "0.11"
nalgebra-glm = "*"
png = "0.16"

[dev-dependencies]
scan_fmt = "0.2"
