[package]
name = "tlap"
version = "0.1.0"
edition = "2021"
publish = false

[dependencies]
coqui-stt = "*"
cpal = "0.14"
hound = "*"
