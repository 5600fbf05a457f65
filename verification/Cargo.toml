[package]
name = "tilecover"
version = "0.1.0"
edition = "2021"
publish = false

[dependencies]
geo = "0.12.2"
