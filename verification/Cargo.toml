[package]
name = "split_ordered"
version = "0.1.0"
edition = "2021"
publish = false

[dependencies]
crossbeam-channel = "0.5"
crossbeam-epoch = "0.9"
