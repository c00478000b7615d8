[package]
name = "yamabiko_whisper"
version = "0.2.0"
edition = "2021"
publish = false

[dependencies]
whisper-rs = "*"
