[package]
name = "remote_window"
version = "0.1.0"
edition = "2021"
publish = false

[dependencies]
zstd = "=0.14.3"
lz4_flex = "=0.14.0"
socket2 = "=0.6.5"
captrs = "*"
arc-swap = "*"
minifb = "*"
