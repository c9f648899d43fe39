[package]
name = "rfr"
version = "0.1.0"
edition = "2021"
publish = false

[dependencies]
jiff = "*"
walkdir = "*"

[dev-dependencies]
postcard = { version = "*", features = ["alloc"] }
