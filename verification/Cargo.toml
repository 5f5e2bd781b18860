[package]
name = "hoverboard"
version = "0.1.0"
edition = "2021"
publish = false

[dependencies]
crc = "3"
heapless = "0.8"
fixed = "1"
embedded-io = "0.6"
embedded-hal = "1"
