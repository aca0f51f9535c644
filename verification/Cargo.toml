[package]
name = "maximal-lottery"
version = "0.1.0"
edition = "2021"
publish = false

[dependencies]
bitvec = "1"
num-bigint = "0.4"
num-rational = "0.4"
num-traits = "0.2"
thiserror = "2"
