[package]
name = "pltz"
version = "0.1.0"
edition = "2021"
publish = false

[dependencies]
flate2 = "1"
zstd = "0.13"
brotli = "*"
rustfft = "6"
rayon = "1"
clap = { version = "4", features = ["derive"] }
