[package]
name = "rustzilla"
version = "0.1.0"
edition = "2021"
publish = false

[dependencies]
crossterm = "0.27"
minifb = "0.27"
font8x8 = "0.3"
