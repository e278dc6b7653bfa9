[package]
name = "budget"
version = "0.1.0"
edition = "2021"
publish = false

[dependencies]
tagsearch = "=0.14.0"
structopt = "=0.3.26"
