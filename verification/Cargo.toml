[package]
name = "matchmaker"
version = "0.1.0"
edition = "2021"
publish = false

[dependencies]
log = "0.4"
plotters = "0.3"
rand = "0.8"
