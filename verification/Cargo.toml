[package]
name = "sort_big_file"
version = "0.1.0"
edition = "2021"
publish = false

[dependencies]
args = "*"
getopts = "*"
