[package]
name = "talys_empire"
version = "0.1.0"
edition = "2021"
publish = false

[dependencies]
plotters = "0.3"
