[package]
name = "msgpack"
version = "0.1.0"
edition = "2021"
publish = false

[dependencies]
byteorder = "1"
num = "0.4"
rustc-serialize = "0.3"
