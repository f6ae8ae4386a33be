[package]
name = "chemcat"
version = "0.1.0"
edition = "2021"
publish = false

[dependencies]
ctrlc = "=3.5.2"
gcd = "=2.3.0"
owo-colors = "=4.4.0"
