[package]
name = "bootgfx"
version = "0.1.0"
edition = "2021"
publish = false

[dependencies]
embedded-graphics = "*"
uefi = "*"
