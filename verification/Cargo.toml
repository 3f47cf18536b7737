[package]
name = "seqkit_rs"
version = "0.1.0"
edition = "2021"
publish = false

[dependencies]
memchr = "*"
clap = { version = "*", features = ["derive"] }
needletail = "*"
rayon = "*"
tabled = "*"
atty = "*"
log = "*"
