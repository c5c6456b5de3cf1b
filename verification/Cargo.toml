[package]
name = "wfc_gen"
version = "0.1.0"
edition = "2021"
publish = false

[dependencies]
image = "0.25"
rand = "0.10"
