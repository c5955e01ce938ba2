[package]
name = "gcode"
version = "0.1.0"
edition = "2021"
publish = false

[dependencies]
arrayvec = "0.4"
failure = "0.1"
