[package]
name = "wfiles"
version = "0.1.0"
edition = "2021"
publish = false

[dependencies]
rusqlite = { version = "*", features = ["bundled"] }
hex = "*"
xxhash-rust = { version = "*", features = ["xxh3"] }
openssl = "*"
indexmap = "*"
clap = "*"
walkdir = "*"
vmap = "*"
libc = "*"
