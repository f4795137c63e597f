[package]
name = "expression_parser"
version = "0.1.0"
edition = "2021"
publish = false

[dependencies]
clap = { version = "4", features = ["derive"] }

[dev-dependencies]
pest = "2"
pest_meta = "2"
pest_vm = "2"
