[package]
name = "spotlight_save"
version = "0.1.0"
edition = "2021"
publish = false

[dependencies]
image = "*"
chrono = "*"
clap = "*"
home = "*"
