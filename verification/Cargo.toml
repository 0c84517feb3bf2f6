[package]
name = "rowan"
version = "0.16.1"
edition = "2021"
publish = false

[dependencies]
hashbrown = { version = "0.14", default-features = false, features = ["inline-more"] }
rustc-hash = "2"
text-size = "1.1"
