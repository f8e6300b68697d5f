[package]
name = "the_way"
version = "0.1.0"
edition = "2021"
publish = false

[dependencies]
chrono = "*"
