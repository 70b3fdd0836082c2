[package]
name = "mojibox"
version = "0.1.0"
edition = "2021"
publish = false

[dependencies]
icu_segmenter = "*"
unicode_names2 = "*"
clap = { version = "*", features = ["derive"] }
