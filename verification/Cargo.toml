[package]
name = "chess_brute"
version = "0.1.0"
edition = "2021"
publish = false

[dependencies]
colored = "*"
rayon = "*"
regex = "*"
took = "*"
uci = "*"
