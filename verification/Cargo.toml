[package]
name = "sudoku_solver"
version = "0.1.0"
edition = "2021"
publish = false

[dependencies]
anyhow = "1"
array_tool = "1"
calamine = "0.19"
clap = { version = "3", features = ["derive"] }
human-panic = "1"
