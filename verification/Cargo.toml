[package]
name = "s3_fifo"
version = "0.1.0"
edition = "2021"
publish = false
