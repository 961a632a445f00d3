[package]
name = "cdbgen"
version = "0.1.0"
edition = "2021"
publish = false

[dependencies]
libc = "0.2"
which = "*"

[dev-dependencies]
serde_json = "1"
