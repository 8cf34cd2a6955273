[package]
name = "cdcl_sat"
version = "0.1.0"
edition = "2021"
publish = false

[dependencies]
dimacs = "0.2"
fnv = "1.0"
