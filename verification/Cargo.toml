[package]
name = "lifelike"
version = "0.1.0"
edition = "2021"

[dependencies]
getopts = "*"
png = "*"
rand = "*"
sdl2 = "*"
