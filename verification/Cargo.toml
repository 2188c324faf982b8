[package]
name = "wordsearch"
version = "0.1.0"
edition = "2021"
publish = false

[dependencies]
anyhow = "1"
clap = { version = "4", features = ["derive"] }
image = "0.24"
imageproc = "0.23"
rand = "0.8"
rand_derive2 = "*"
rusttype = "0.9"
