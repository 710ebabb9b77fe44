[package]
name = "licensesnip"
version = "0.1.0"
edition = "2021"

[dependencies]
chrono = "*"
clap = { version = "*", features = ["derive"] }
colored = "*"
directories = "*"
exitcode = "*"
ignore = "*"
mktemp = "*"
serde = { version = "*", features = ["derive"] }
serde_json = "*"
