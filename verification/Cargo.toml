[package]
name = "advent2023"
version = "0.1.0"
edition = "2021"
publish = false

[dependencies]
indexmap = "2"
nom = "7"
aoc-runner = "0.3"
aoc-runner-derive = "0.3"
