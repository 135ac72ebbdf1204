[package]
name = "pickem"
version = "0.2.0"
edition = "2021"
publish = false

[dependencies]
clap = "2"
termion = "1"
termios = "0.3"
yaml-rust = "0.4"
