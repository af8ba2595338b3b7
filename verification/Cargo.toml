[package]
name = "hex_reader"
version = "0.1.0"
edition = "2021"
publish = false

[dependencies]
argh = "0.1"
color-eyre = "0.6"
eyre = "0.6"
itertools = "0.10"
object = { version = "0.30", default-features = false, features = ["elf"] }
