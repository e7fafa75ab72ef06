[package]
name = "npktool"
version = "0.1.0"
edition = "2021"
publish = false

[dependencies]
byteorder = "=1.5.0"
compress = "=0.2.1"
murmur3 = "=0.5.2"
tree_magic = "=0.2.3"
clap = "=3.2.25"
indicatif = "0.17"
log = "=0.4.35"
simple_logger = "=1.16.0"
bytesize = "=1.3.3"
