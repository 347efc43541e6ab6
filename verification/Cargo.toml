[package]
name = "bf_jit"
version = "0.1.0"
edition = "2021"
publish = false

[dependencies]
memmap2 = "0.9"
clap = { version = "4", features = ["derive"] }
