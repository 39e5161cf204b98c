[package]
name = "tag_engine"
version = "0.1.0"
edition = "2021"
publish = false

[dependencies]
petgraph = "0.4"
walkdir = "2"
notify = "4"
clap = "2"
