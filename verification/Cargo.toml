[package]
name = "tree_bin"
version = "0.1.0"
edition = "2021"
publish = false

[dependencies]
crossbeam-epoch = "*"
parking_lot = "*"
