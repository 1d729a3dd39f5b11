[package]
name = "rqueue"
version = "0.1.0"
edition = "2021"
publish = false

[dependencies]
getopts = "*"
mio = { version = "*", default-features = false, features = ["os-poll", "net"] }
