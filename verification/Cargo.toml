[package]
name = "justice"
version = "0.3.0"
edition = "2021"
publish = false

[dependencies]
unicode-segmentation = "1"
