[package]
name = "vex"
version = "0.1.0"
edition = "2021"
publish = false

[dependencies]
colored = "*"
indicatif = "*"
tiny_http = "*"
ureq = "3"
