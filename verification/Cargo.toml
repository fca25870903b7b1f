[package]
name = "assert_call"
version = "0.1.0"
edition = "2021"
publish = false

[dependencies]
yansi = "1"
