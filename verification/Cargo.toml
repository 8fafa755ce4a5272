[package]
name = "telemetry_batch"
version = "0.1.0"
edition = "2021"
publish = false

[dependencies]
bimap = "*"
rayon = "*"
log = "*"
