[package]
name = "ll1_parser"
version = "0.1.0"
edition = "2021"
publish = false

[dependencies]
ansi_term = "0.12"
rand = "0.8"
term_size = "0.3"
