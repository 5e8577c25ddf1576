[package]
name = "variant_chess"
version = "0.1.0"
edition = "2021"
publish = false

[dependencies]
rand = "=0.9.5"
slint = { version = "1", default-features = false, features = ["std", "compat-1-2"] }
