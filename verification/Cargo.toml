[package]
name = "mental_poker"
version = "0.1.0"
edition = "2021"
publish = false

[dependencies]
ark-ec = "0.5"
ark-ff = "0.5"
ark-pallas = "0.5"
ark-serialize = "0.5"
ark-std = "0.5"
rand = "0.8"
sha2 = "0.10"
