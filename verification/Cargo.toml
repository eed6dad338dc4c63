[package]
name = "nfm-core"
version = "0.1.0"
edition = "2021"
publish = false

[dependencies]
args = "=2.2.0"
getopts = "=0.2.24"
