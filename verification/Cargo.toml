[package]
name = "jw"
version = "0.1.0"
edition = "2021"
publish = false

[dependencies]
clap = "*"
jwalk = "*"
md5 = "*"
memmap2 = "*"
rayon = "*"
sha2 = "*"
xxhash-rust = { version = "*", features = ["xxh3"] }
