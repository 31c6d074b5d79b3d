[package]
name = "xer2csv"
version = "0.1.0"
edition = "2021"

[dependencies]
csv = "1"
walkdir = "2"
