[package]
name = "smake"
version = "0.1.0"
edition = "2021"
publish = false

[dependencies]
getopts = "*"
serde = "*"
serde_derive = "*"
serde_yaml = "*"
