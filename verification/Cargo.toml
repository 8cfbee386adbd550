[package]
name = "exclusions"
version = "0.1.0"
edition = "2021"
publish = false

[dependencies]
app_units = "*"
quickcheck = "*"
rand = "*"
