[package]
name = "lyrics_tui"
version = "0.1.0"
edition = "2021"
publish = false

[dependencies]
anyhow = "1"
crossterm = "*"
mpris = "*"
strsim = "*"
walkdir = "2"
