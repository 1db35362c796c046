[package]
name = "ksq"
version = "0.1.0"
edition = "2021"

[dependencies]
libfuzzer-sys = "0.4"
