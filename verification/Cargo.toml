[package]
name = "kospi200_parser"
version = "0.1.0"
edition = "2021"
publish = false

[dependencies]
itoa = "1"
memmap2 = "0.9"
