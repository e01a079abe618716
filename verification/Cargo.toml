[package]
name = "zorsh_schema"
version = "0.1.0"
edition = "2021"
publish = false

[dependencies]
borsh = { version = "1", features = ["unstable__schema", "derive"] }
