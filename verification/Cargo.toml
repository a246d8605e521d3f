[package]
name = "pk2"
version = "0.1.0"
edition = "2021"
publish = false

[dependencies]
hashbrown = "0.15"
rustc-hash = "2"
encoding_rs = "0.8"
block-modes = "0.8"
blowfish = "0.8"
camino = "1"
clap = { version = "4", features = ["derive"] }
