[package]
name = "lprofile_hook"
version = "0.1.0"
edition = "2021"
publish = false

[dependencies]
lua = "*"
once_cell = "1"
