[package]
name = "buriko_arc"
version = "0.1.0"
edition = "2021"
publish = false

[dependencies]
lewton = "*"
png = "*"
clap = { version = "*", features = ["derive"] }
