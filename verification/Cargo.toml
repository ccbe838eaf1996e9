[package]
name = "costoflife"
version = "0.1.0"
edition = "2021"
publish = false

[dependencies]
chrono = "*"
slug = "*"
blake3 = "*"
bigdecimal = "*"
regex = "*"
clap = "*"
dialoguer = "*"
directories-next = "*"
pad = "*"
