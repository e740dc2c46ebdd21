[package]
name = "rentt"
version = "0.1.0"
edition = "2021"
publish = false

[dependencies]
nonmax = "0.5"
