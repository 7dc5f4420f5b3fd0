[package]
name = "thor"
version = "0.1.0"
edition = "2021"
publish = false

[dependencies]
lz4_flex = "*"
nusb = "0.2"
rustyline = "*"
tar = "0.4"
