[package]
name = "stopwatch"
version = "0.1.0"
edition = "2021"
publish = false

[dependencies]
figlet-rs = "=0.1.5"
pancurses = "=0.17.0"
