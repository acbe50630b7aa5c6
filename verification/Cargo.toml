[package]
name = "rnr"
version = "0.1.0"
edition = "2021"
publish = false

[dependencies]
ansi_term = "*"
any_ascii = "*"
chrono = "*"
clap = { version = "4", features = ["derive"] }
difference = "*"
path_abs = "*"
rayon = "*"
regex = "*"
tempfile = "*"
walkdir = "*"
