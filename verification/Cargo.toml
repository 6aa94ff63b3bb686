[package]
name = "tube_sort"
version = "0.1.0"
edition = "2021"
publish = false

[dependencies]
clap = "3"
image = { version = "0.24", default-features = false, features = ["png", "jpeg"] }
palette = "0.6"
