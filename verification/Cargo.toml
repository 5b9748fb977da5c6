[package]
name = "rhosts"
version = "0.1.0"
edition = "2021"
publish = false

[dependencies]
addr = "*"
psl = "*"
indexmap = "*"
clap = { version = "*", features = ["derive"] }
directories = "*"
reqwest = { version = "*", default-features = false, features = ["blocking"] }
serde = { version = "*", features = ["derive"] }
serde_json = "*"
num-format = "*"
