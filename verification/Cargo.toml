[package]
name = "hyaline_smr"
version = "0.1.0"
edition = "2021"
publish = false

[dependencies]
atomicdouble = "*"
rand = "0.8"
lazy_static = "1"
