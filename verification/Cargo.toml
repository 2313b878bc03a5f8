[package]
name = "dna_suffix_array"
version = "0.1.0"
edition = "2021"
publish = false
