[package]
name = "cdcl"
version = "0.1.0"
edition = "2021"
publish = false

[dependencies]
varisat-dimacs = "0.2"
