[package]
name = "file_explorer"
version = "0.1.0"
edition = "2021"
publish = false

[dependencies]
regex = "1"
druid = "0.8"
rfd = "*"
