[package]
name = "swf_timeline"
version = "0.1.0"
edition = "2021"
publish = false

[dependencies]
swf-tree = "*"
