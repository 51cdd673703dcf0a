[package]
name = "cdcl_core"
version = "0.1.0"
edition = "2021"

[dependencies]
indexmap = "1.9"
rand = "0.7"
