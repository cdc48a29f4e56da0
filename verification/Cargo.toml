[package]
name = "dirstat"
version = "0.1.0"
edition = "2021"
publish = false

[dependencies]
druid = "0.8"
rayon = "1"
tracing = "0.1"
