[package]
name = "bcrypt_shim"
version = "0.1.0"
edition = "2021"
publish = false

[dependencies]
bcrypt = "*"
