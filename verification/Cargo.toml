[package]
name = "scope_query"
version = "0.1.0"
edition = "2021"
publish = false

[dependencies]
regex = "*"
url = "*"
anyhow = "*"
clap = { version = "*", features = ["derive"] }
stack-graphs = { version = "*", features = ["storage"] }
