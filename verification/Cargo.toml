[package]
name = "fri"
version = "0.1.0"
edition = "2021"
publish = false

[dependencies]
ff = "0.12"
keccak = "0.1"
merlin = "3"
pasta_curves = "0.4"
