[package]
name = "vela_sim"
version = "0.1.0"
edition = "2021"
publish = false

[dependencies]
proptest = "1"
thiserror = "1"
