[package]
name = "boa"
version = "0.1.0"
edition = "2021"
publish = false

[dependencies]
fxhash = "=0.2.1"
itertools = "=0.15.0"
byteorder = "=1.5.0"
