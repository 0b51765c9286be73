[package]
name = "statewalk"
version = "0.1.0"
edition = "2021"
publish = false

[dependencies]
crossbeam = "*"
crossbeam-channel = "*"
csv = "*"
num_cpus = "*"
