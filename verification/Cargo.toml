[package]
name = "bpers"
version = "0.1.0"
edition = "2021"
publish = false

[dependencies]
foldhash = "0.1"
indexmap = "2"
anyhow = "1"
bincode = "2"
clap = { version = "4", features = ["derive"] }
thiserror = "2"
