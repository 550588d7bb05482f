[package]
name = "barricade"
version = "0.1.0"
edition = "2021"
publish = false

[dependencies]
petgraph = "=0.8.3"
fixedbitset = "=0.5.7"
colored = "=3.1.1"
