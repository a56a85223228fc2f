[package]
name = "tensorgrad"
version = "0.1.0"
edition = "2021"
publish = false

[dependencies]
ndarray = "0.16"
uuid = { version = "1", features = ["v4"] }
