[package]
name = "rlike"
version = "0.1.0"
edition = "2021"
publish = false

[dependencies]
rayon = "1"
csv = "1"
flate2 = "1"
