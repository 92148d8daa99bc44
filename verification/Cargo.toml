[package]
name = "loch"
version = "0.1.0"
edition = "2021"
publish = false

[dependencies]
atty = "0.2"
clap = "2"
curl = "0.4"
ignore = "0.4"
lazy_static = "1"
termcolor = "1"
