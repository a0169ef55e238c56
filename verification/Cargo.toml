[package]
name = "tobu"
version = "0.1.0"
edition = "2021"
publish = false

[dependencies]
bytes = "=1.12.1"
heck = "=0.3.3"
anyhow = "1"
clap = "2"
proc-macro2 = "1"
quote = "1"
