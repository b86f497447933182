[package]
name = "nd_tic_tac_toe"
version = "0.1.0"
edition = "2021"

[dependencies]
itertools = "*"
clap = { version = "4", features = ["derive"] }
