[package]
name = "file_index"
version = "0.1.0"
edition = "2021"
publish = false

[dependencies]
clap = { version = "3.2", features = ["derive"] }
md-5 = "0.10"
relative-path = "1"
