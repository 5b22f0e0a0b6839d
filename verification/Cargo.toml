[package]
name = "prometheus_exposition_format_rs"
version = "0.1.0"
edition = "2021"
publish = false
