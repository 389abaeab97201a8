[package]
name = "artmap"
version = "0.5.0"
edition = "2021"
publish = false

[dependencies]
byteslice = "*"
crossbeam-epoch = "0.9"
