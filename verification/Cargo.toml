[package]
name = "parser_gen"
version = "0.1.0"
edition = "2021"
publish = false

[dependencies]
smallvec = "1"
hashbrown = "0.15"
indexmap = { version = "2", features = ["serde"] }
serde = { version = "1", features = ["derive"] }
toml = "0.8"
clap = "4"
regex = "1"
