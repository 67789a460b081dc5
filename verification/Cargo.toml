[package]
name = "ikluft_tools"
version = "0.1.0"
edition = "2021"
publish = false

[dependencies]
anyhow = "1"
clap = "4"
rand = "0.8"
