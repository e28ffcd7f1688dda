[package]
name = "paperpack"
version = "0.1.0"
edition = "2021"
publish = false

[dependencies]
anyhow = "*"
base58 = "*"
chksum-hash-sha2-512 = "*"
clap = { version = "*", features = ["derive"] }
image = "*"
printpdf = { version = "0.7", features = ["svg"] }
qrcode = "*"
rayon = "*"
reed-solomon-simd = "*"
rxing = "*"
