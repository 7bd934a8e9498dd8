[package]
name = "sudoku"
version = "0.1.0"
edition = "2021"
publish = false

[dependencies]
atoi = "0.3"
rand = "0.7"
clap = "2"
colored = "1.9"
env_logger = "0.7"
log = "0.4"
rayon = "1"
