[package]
name = "baremetal"
version = "0.1.0"
edition = "2021"
publish = false

[dependencies]
xous = "0.9.71"
utralib = "0.1.27"
bao1x-api = "0.1.4"
critical-section = "1.2.0"
