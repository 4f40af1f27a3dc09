[package]
name = "ilvm"
version = "0.1.0"
edition = "2021"

[dependencies]
clap = "=2.34.0"

[dev-dependencies]
nom = "=7.1.3"
