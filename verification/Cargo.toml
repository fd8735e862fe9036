[package]
name = "mqfilters"
version = "0.1.0"
edition = "2021"
publish = false

[dependencies]
hash-iter = "=1.2.2"
thiserror = "=2.0.21"
