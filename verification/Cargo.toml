[package]
name = "mazes"
version = "0.1.0"
edition = "2021"
publish = false

[dependencies]
rand = "0.4"
structopt = "0.2"
ggez = "0.5"
