[package]
name = "nanoclo"
version = "0.1.0"
edition = "2021"
publish = false

[dependencies]
hashbrown = "0.15"
smallvec = "1"
num-bigint = "0.4"
num-traits = "0.2"
stacker = "0.1"
