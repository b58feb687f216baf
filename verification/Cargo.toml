[package]
name = "rainbow_lights"
version = "0.1.0"
edition = "2021"
publish = false

[dependencies]
getopts = "=0.2.24"
time = "=0.3.55"
