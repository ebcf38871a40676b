[package]
name = "vagabond"
version = "0.1.0"
edition = "2021"
publish = false

[dependencies]
cdrs = "2"
clap = "2"
kankyo = "0.3"
r2d2 = "0.8"
yansi = "0.5"
