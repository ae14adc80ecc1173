[package]
name = "durstr"
version = "0.5.0"
edition = "2021"
publish = false

[dependencies]
thiserror = "2"
