[package]
name = "wsntp"
version = "0.1.0"
edition = "2021"
publish = false

[dependencies]
base64 = "0.22"
clap = { version = "4", features = ["derive"] }
dirs = "5"
ed25519-dalek = "2"
image = { version = "0.25", default-features = false, features = ["png", "jpeg", "bmp", "gif", "tiff", "webp"] }
ndarray = "0.16"
num-complex = "0.4"
rand = "0.8"
rayon = "1"
rustfft = "6"
toml = "0.8"
zeroize = { version = "1", features = ["derive"] }
