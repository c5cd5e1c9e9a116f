[package]
name = "git-stack"
version = "0.1.0"
edition = "2021"
publish = false

[dependencies]
bstr = "*"
git2 = { version = "*", default-features = false }
log = "*"
