[package]
name = "nightfall"
version = "0.1.0"
edition = "2021"
publish = false

[dependencies]
crossbeam-deque = "*"
parking_lot = "*"
thread_local = "*"
