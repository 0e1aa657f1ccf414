[package]
name = "hdt_pfc"
version = "0.1.0"
edition = "2021"
publish = false

[dependencies]
crc-any = "*"
