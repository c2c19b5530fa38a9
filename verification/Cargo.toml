[package]
name = "typing_english"
version = "0.1.0"
edition = "2021"
publish = false

[dependencies]
clap = "=2.34.0"
dissolve = "=0.1.3"
rand = "=0.7.3"
regex = "=1.13.1"
sqlite = "=0.25.3"
termion = "=1.5.6"
tui = "=0.8.0"
