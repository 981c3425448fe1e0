[package]
name = "authorized"
version = "0.1.0"
edition = "2021"
publish = false

[dependencies]
darling = "*"
proc-macro2 = "*"
quote = "*"
serde = "*"
syn = "*"
