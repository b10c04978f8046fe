[package]
name = "sam_drawer"
version = "0.1.0"
edition = "2021"
publish = false

[dependencies]
layout-rs = "*"
