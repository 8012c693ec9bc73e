[package]
name = "dsp"
version = "0.1.0"
edition = "2021"
publish = false

[dependencies]
heapless = "*"
dasp = { version = "*", features = ["all"] }
libm = "*"
microfft = "*"
