[package]
name = "veriform"
version = "0.1.0"
edition = "2021"
publish = false

[dependencies]
digest = "0.11"
sha2 = "0.11"
darling = "=0.14.4"
proc-macro2 = "=1.0.107"
quote = "=1.0.47"
syn = { version = "=1.0.109", features = ["full"] }
synstructure = "=0.12.6"
