[package]
name = "shelltyper"
version = "0.1.0"
edition = "2021"
publish = false

[dependencies]
crossterm = "0.19"
itertools = "0.10"
pico-args = "0.4"
rand = "0.8"
tui = { version = "0.15", default-features = false, features = ["crossterm"] }
