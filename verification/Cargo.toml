[package]
name = "parse"
version = "0.1.0"
edition = "2021"
publish = false

[dependencies]
punycode = "*"
unic = "*"
unic-idna-mapping = "*"
unicode-joining-type = "*"
unicode-script = "*"
