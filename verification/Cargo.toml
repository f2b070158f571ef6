[package]
name = "foyer_core"
version = "0.1.0"
edition = "2021"
publish = false

[dependencies]
bytes = "1"
futures = "0.3"
parking_lot = "0.12"
