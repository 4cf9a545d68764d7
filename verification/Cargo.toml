[package]
name = "oled_mirror"
version = "0.1.0"
edition = "2021"
publish = false

[dependencies]
hex = "*"
gdb-protocol = "*"
embedded-graphics = "*"
embedded-graphics-simulator = "*"
