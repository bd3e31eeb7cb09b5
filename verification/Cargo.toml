[package]
name = "ising_wolff"
version = "0.1.0"
edition = "2021"
publish = false

[dependencies]
rand = "0.8"
nalgebra = "*"
itertools-num = "*"
scoped_threadpool = "*"
