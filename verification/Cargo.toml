[package]
name = "samply_core"
version = "0.1.0"
edition = "2021"
publish = false

[dependencies]
flate2 = "1"
object = "0.25"
pdb = "0.7"
tempfile = "3"
uuid = "0.8"
