[package]
name = "kvs"
version = "0.1.0"
edition = "2021"
publish = false

[dependencies]
log = "0.4"
rayon = "1"
sled = "0.34"
stderrlog = "0.5"
structopt = "0.3"
