[package]
name = "raca_core"
version = "0.1.0"
edition = "2021"
publish = false

[dependencies]
x86_64 = { version = "0.15", default-features = false, features = ["instructions"] }
vte = "0.13"
argh = "0.1"
walkdir = "2"
