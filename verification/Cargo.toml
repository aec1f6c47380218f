[package]
name = "usbtree"
version = "0.1.0"
edition = "2021"
publish = false

[dependencies]
nusb = "0.2"
usb-ids = "1"
libc = "0.2"
ratatui = "0.29"
