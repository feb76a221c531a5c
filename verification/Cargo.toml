[package]
name = "gimli"
version = "0.1.0"
edition = "2021"
publish = false

[dependencies]
byteorder = "=1.5.0"
leb128 = "=0.2.7"
