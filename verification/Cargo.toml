[package]
name = "profi"
version = "0.1.0"
edition = "2021"
publish = false

[dependencies]
indexmap = "2"
minstant = "0.1"
comfy-table = { version = "7", default-features = false }
beef = "0.5"
rayon = "1"
once_cell = "1"
dashmap = "*"
cli-table = "*"
proc-macro-crate = "*"
