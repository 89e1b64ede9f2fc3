[package]
name = "fontgarden"
version = "0.1.0"
edition = "2021"
publish = false

[dependencies]
norad = "*"
plist = "*"
clap = { version = "*", features = ["derive"] }
anyhow = "*"
rayon = "*"
