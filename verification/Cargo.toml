[package]
name = "rhq"
version = "0.1.0"
edition = "2021"
publish = false

[dependencies]
url = "*"
anyhow = "*"
clap = "2"
git2 = "*"
