[package]
name = "graphql_closure"
version = "0.1.0"
edition = "2021"
publish = false

[dependencies]
graphql-parser = "0.4"
petgraph = "*"
clap = { version = "4", features = ["derive"] }
clap-stdin = "*"
graphql-normalize = "*"
