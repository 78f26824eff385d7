[package]
name = "git_odb"
version = "0.1.0"
edition = "2021"
publish = false

[dependencies]
sha1 = "*"
crc32fast = "*"
flate2 = "*"
argh = "*"
anyhow = "*"
