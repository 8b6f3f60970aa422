[package]
name = "qmdb"
version = "0.1.0"
edition = "2021"
publish = false

[dependencies]
lazy_static = "1"
libc = "0.2"
sha2 = "0.10"

[dev-dependencies]
hex = "0.4"
