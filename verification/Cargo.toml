[package]
name = "ppbert"
version = "0.9.3"
edition = "2021"
publish = false

[dependencies]
byteorder = "1"
encoding = "0.2"
itoa = "1"
ryu = "1"
num-bigint = "0.4"
num-traits = "0.2"
gumdrop = "0.8"
clap = "2"
rayon = "1"
