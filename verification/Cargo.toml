[package]
name = "palettize"
version = "0.1.0"
edition = "2021"
publish = false

[dependencies]
delta_e = "*"
lab = "*"
png = "*"
csv = "*"
clap = { version = "*", features = ["derive"] }
