[package]
name = "hey_listen"
version = "0.5.0"
edition = "2021"
publish = false

[dependencies]
rayon = "1"
parking_lot = "0.12"
futures = "0.3"
async-trait = "0.1"
