[package]
name = "r1cs_gadget"
version = "0.1.0"
edition = "2021"
publish = false

[dependencies]
num = "*"
