[package]
name = "pane_encoding"
version = "0.1.0"
edition = "2021"
publish = false

[dependencies]
encoding_rs = "0.8"
log = "0.4"
