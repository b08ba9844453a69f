[package]
name = "dispersal"
version = "0.1.0"
edition = "2021"
publish = false

[dependencies]
aes = "0.8"
block-padding = "0.3"
cbc = "0.1"
cipher = "0.4"
clap = { version = "4", features = ["derive"] }
galois_2p8 = "0.1"
rand = "0.8"
