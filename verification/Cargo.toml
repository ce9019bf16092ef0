[package]
name = "facet_generate"
version = "0.1.0"
edition = "2021"
publish = false

[dependencies]
facet = "=0.44.5"
regex = "=1.13.1"
