[package]
name = "rbrb"
version = "0.1.0"
edition = "2021"
publish = false

[dependencies]
bincode = "1"
bytesize = "*"
log = "0.4"
lru = "*"
rand = "*"
rand_distr = "*"
seahash = "*"
serde = "1"
