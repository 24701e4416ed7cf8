[package]
name = "spice_sim"
version = "0.1.0"
edition = "2021"
publish = false

[dependencies]
blake3 = "=1.8.7"
borsh = "=1.8.1"
fxhash = "=0.2.1"
rand = "=0.9.5"
