[package]
name = "remapper"
version = "0.1.0"
edition = "2021"
publish = false

[dependencies]
fimg = "*"
atools = "*"
car = "*"
lower = "*"
