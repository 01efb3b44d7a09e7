[package]
name = "manifest_edit"
version = "0.1.0"
edition = "2021"
publish = false

[dependencies]
anyhow = "1"
fs-err = "2"
pep508_rs = "*"
