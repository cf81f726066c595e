[package]
name = "pretty"
version = "0.1.0"
edition = "2021"
publish = false

[dependencies]
arrayvec = "0.5"
termcolor = "1"
typed-arena = "2"
unicode-segmentation = "1"
