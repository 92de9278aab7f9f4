[package]
name = "sc2replay"
version = "0.1.0"
edition = "2021"
publish = false

[dependencies]
bzip2 = "*"
encoding = "0.2"
flate2 = "*"
num-bigint = "0.4"
