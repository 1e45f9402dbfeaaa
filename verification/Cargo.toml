[package]
name = "cpd_tools"
version = "0.1.0"
edition = "2021"
publish = false

[dependencies]
rayon = "*"
