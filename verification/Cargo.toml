[package]
name = "msm"
version = "0.1.0"
edition = "2021"
publish = false

[dependencies]
ark-mnt4-298 = "*"
ark-ec = "*"
ark-ff = "*"
ark-std = "*"
rand = "*"
