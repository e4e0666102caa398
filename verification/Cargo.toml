[package]
name = "thread_io"
version = "0.3.0"
edition = "2021"
publish = false

[dependencies]
crossbeam = "0.8"
