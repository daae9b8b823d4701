[package]
name = "pico_runtime"
version = "0.2.0"
edition = "2021"
publish = false

[dependencies]
regex = "1"
