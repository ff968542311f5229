[package]
name = "groestl_multi"
version = "0.1.0"
edition = "2021"
publish = false

[dependencies]
digest = "0.10"

[dev-dependencies]
groestl = "0.10"
