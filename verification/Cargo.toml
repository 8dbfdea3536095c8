[package]
name = "sudoku_solver"
version = "0.1.0"
edition = "2021"
publish = false

[dependencies]
bit-vec = "*"
bitset-core = "*"
fixed-bitset = "*"
intrusive-collections = "*"
typenum = "*"
