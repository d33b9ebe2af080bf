[package]
name = "cabot"
version = "0.7.1"
edition = "2021"
publish = false

[dependencies]
url = "2"
async-std = "1"
clap = "2"
rustls = "0.19"
webpki = "0.21"
webpki-roots = "0.21"
