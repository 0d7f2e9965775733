[package]
name = "sound_locator"
version = "0.1.0"
edition = "2021"
publish = false

[dependencies]
r0 = "0.2.2"
