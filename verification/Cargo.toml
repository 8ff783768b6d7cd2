[package]
name = "orderbook"
version = "0.1.0"
edition = "2021"
publish = false

[dependencies]
crossterm = "0.25"
tui = "0.19"
rand = "0.8"
rand_distr = "0.4"
