[package]
name = "rustorrent"
version = "0.1.0"
edition = "2021"
publish = false

[dependencies]
sha1 = "*"
bit-vec = "*"
mio = { version = "*", features = ["net", "os-poll"] }
