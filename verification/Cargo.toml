[package]
name = "transcript_text"
version = "0.1.0"
edition = "2021"
publish = false

[dependencies]
strsim = "*"
natural = "*"
