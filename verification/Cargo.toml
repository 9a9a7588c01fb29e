[package]
name = "espeak_phonemizer"
version = "0.1.0"
edition = "2021"
publish = false

[dependencies]
regex = "1"
once_cell = "1"
ffi-support = "0.4"
