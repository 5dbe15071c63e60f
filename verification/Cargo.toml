[package]
name = "diskvec"
version = "0.1.0"
edition = "2021"
publish = false

[dependencies]
memmap = "*"
parking_lot = "*"
