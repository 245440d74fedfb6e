[package]
name = "caribou"
version = "0.1.0"
edition = "2021"
publish = false

[dependencies]
ariadne = "0.6"
libc = "0.2"
serde = { version = "1", features = ["derive"] }
