[package]
name = "hexspect"
version = "0.1.0"
edition = "2021"
publish = false

[dependencies]
ansi_term = "*"
clap = { version = "*", features = ["derive"] }
elf = "*"
rustc-demangle = "*"
