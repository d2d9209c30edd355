[package]
name = "serval"
version = "0.1.0"
edition = "2021"
publish = false

[dependencies]
combine = "3"
failure = "0.1"
image = "0.19"
log = "0.4"
loggerv = "0.7"
structopt = "0.2"
