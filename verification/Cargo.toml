[package]
name = "blinkterm"
version = "0.1.0"
edition = "2021"
publish = false

[dependencies]
jpeg-decoder = { version = "0.3", default-features = false }
libc = "0.2"
png = "0.17"
