[package]
name = "regexlib"
version = "0.1.0"
edition = "2021"
publish = false

[dependencies]
unic-ucd-category = "=0.9.0"
unic-char-property = "=0.9.0"
proc-macro2 = "=1.0.107"
quote = "=1.0.47"
syn = "=2.0.119"
itertools = "=0.15.0"
