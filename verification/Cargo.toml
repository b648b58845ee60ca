[package]
name = "shlex"
version = "1.2.0"
edition = "2021"
publish = false

[dependencies]
bstr = "=1.13.1"
nu-pretty-hex = "=0.102.0"
pyo3 = "=0.20.3"
rand = "=0.8.8"
