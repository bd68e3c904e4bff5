[package]
name = "kardos"
version = "0.1.0"
edition = "2021"
publish = false

[dependencies]
goblin = "=0.10.7"
uefi = { version = "=0.41.0", features = ["alloc"] }
