[package]
name = "prefix_dict"
version = "0.1.0"
edition = "2021"
publish = false

[dependencies]
qptrie = "*"
