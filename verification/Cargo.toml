[package]
name = "cw"
version = "0.7.0"
edition = "2021"
publish = false

[dependencies]
bstr = "1"
bytecount = "0.6"
memchr = "2"
crossbeam-channel = "0.5"
crossbeam-utils = "0.8"
libc = "0.2"
structopt = "0.3"
