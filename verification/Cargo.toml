[package]
name = "quarterpastmarch"
version = "0.1.0"
edition = "2021"
publish = false

[dependencies]
askama = "0.14"
async-std = "=1.13.2"
chrono = { version = "=0.4.45", default-features = false, features = ["std"] }
indicatif = "=0.17.11"
itertools = "=0.10.5"
