[package]
name = "world_map_gen"
version = "0.1.0"
edition = "2021"
publish = false

[dependencies]
rand = "0.8"
clap = "2"
term_size = "0.3"
termcolor = "1"
termcolor2rgb = "*"
serde_json = "1"
