[package]
name = "rcomb"
version = "0.1.0"
edition = "2021"
publish = false

[dependencies]
rayon = "*"
uf_rush = "*"
primefactor = "*"
divisors = "*"
fixedbitset = "*"
itertools = "*"
petgraph = "*"
radix_trie = "*"
csv = "*"
kdam = "*"
