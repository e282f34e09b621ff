[package]
name = "agg_files"
version = "0.1.0"
edition = "2021"
publish = false

[dependencies]
regex = "*"
ignore = "*"
url = "*"
walkdir = "*"
chrono = "*"
directories = "*"
flate2 = "*"
tar = "*"
tokio = { version = "*", features = ["macros", "rt-multi-thread", "fs"] }
reqwest = { version = "*", default-features = false }
