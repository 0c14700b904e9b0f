[package]
name = "text_align"
version = "0.1.0"
edition = "2021"
publish = false

[dependencies]
owned_ttf_parser = "=0.25.1"
rusttype = "=0.9.3"
xml5ever = "=0.39.0"
markup5ever_rcdom = "=0.39.0"
