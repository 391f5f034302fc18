[package]
name = "laidout"
version = "0.3.0"
edition = "2021"
publish = false

[dependencies]
unicode-width = "0.2"
thiserror = "2"
num-bigint = "0.4.6"
