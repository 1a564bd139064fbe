[package]
name = "the_pink_sand_simulator"
version = "0.1.0"
edition = "2021"
publish = false

[dependencies]
rand = "*"
