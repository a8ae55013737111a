[package]
name = "druid-graphs"
version = "0.1.0"
edition = "2021"
publish = false

[dependencies]
druid = { version = "0.7", features = ["im"] }
druid-lens-compose = "*"
itertools = "*"
to_precision = "*"
