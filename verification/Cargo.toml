[package]
name = "sloppycomp"
version = "0.1.0"
edition = "2021"
publish = false

[dependencies]
serde = { version = "1", features = ["derive"] }
bincode = "1"
md5 = "0.7"
hex = "0.4"
