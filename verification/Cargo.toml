[package]
name = "sudoku_cli"
version = "0.1.0"
edition = "2021"
publish = false

[dependencies]
ansi-escapes = "0.1"
num_cpus = "1"
rayon = "1"
structopt = "0.3"
