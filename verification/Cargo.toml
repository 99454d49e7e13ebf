[package]
name = "roast"
version = "0.1.0"
edition = "2021"
publish = false

[dependencies]
cvc5 = "*"
