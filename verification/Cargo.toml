[package]
name = "emcyphal"
version = "0.1.0"
edition = "2021"
publish = false

[dependencies]
canadensis_encoding = "*"
critical-section = { version = "1", features = ["std"] }
embassy-futures = "0.1"
embassy-sync = "0.7"
embassy-time = { version = "0.5", features = ["std"] }
embedded-can = "0.4"
heapless = "0.8"
