[package]
name = "base_converter"
version = "1.2.0"
edition = "2021"
publish = false

[dependencies]
clap = "2"
num = "0.4"
