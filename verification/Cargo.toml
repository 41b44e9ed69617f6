[package]
name = "moka"
version = "0.1.0"
edition = "2021"
publish = false

[dependencies]
cht = "0.4"
crossbeam-channel = "0.5"
parking_lot = "0.11"
quanta = "0.7"
