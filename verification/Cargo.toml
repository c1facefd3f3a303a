[package]
name = "caribon"
version = "0.1.0"
edition = "2021"
publish = false

[dependencies]
stemmer = "*"
edit-distance = "*"
