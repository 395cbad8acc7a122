[package]
name = "mazest"
version = "0.1.0"
edition = "2021"
publish = false

[dependencies]
crossterm = "*"
rand = "0.9"
rand_set = "*"
tracing = "*"
tracing-appender = "*"
tracing-subscriber = "*"
unicode-truncate = "*"
unicode-width = "*"
