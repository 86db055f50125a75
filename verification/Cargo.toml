[package]
name = "hdr_burst"
version = "0.1.0"
edition = "2021"
publish = false

[dependencies]
clap = { version = "4", features = ["derive"] }
image = { version = "0.25", default-features = false, features = ["png"] }
kamadak-exif = "*"
ndarray = "*"
ndrustfft = "*"
rawloader = "*"
rayon = "1"
rustfft = "6"
