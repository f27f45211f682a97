[package]
name = "format_num_pattern"
version = "0.1.0"
edition = "2021"
publish = false

[dependencies]
memchr = "2"
pure-rust-locales = "*"
rust_decimal = { version = "1", default-features = false, features = ["std"] }
