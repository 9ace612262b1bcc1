[package]
name = "advent_puzzles"
version = "0.1.0"
edition = "2021"
publish = false

[dependencies]
regex = "1"
num = "*"
geo = "*"
good_lp = { version = "*", default-features = false, features = ["microlp"] }
