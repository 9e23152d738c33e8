[package]
name = "rusty_os"
version = "0.1.0"
edition = "2021"
publish = false

[dependencies]
spin = "*"
x86_64 = "*"
uefi = "*"
arrayvec = { version = "*", default-features = false }
