[package]
name = "syncrim"
version = "0.1.0"
edition = "2021"
publish = false
