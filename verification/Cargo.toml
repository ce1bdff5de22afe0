[package]
name = "ponysay"
version = "0.1.0"
edition = "2021"
publish = false

[dependencies]
atty = "=0.2.14"
clap = { version = "=3.2.25", features = ["derive"] }
nom = "=5.1.3"
rand = "=0.7.3"
term_grid = "=0.1.7"
term_size = "=0.3.2"
textwrap = { version = "=0.13.4", default-features = false, features = ["unicode-width"] }
unicode-width = "=0.1.14"
