[package]
name = "tidybee_agent"
version = "0.1.0"
edition = "2021"
publish = false

[dependencies]
clap = "2"
crossbeam-channel = "0.5"
