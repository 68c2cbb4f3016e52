[package]
name = "orca_tree_supports"
version = "0.1.0"
edition = "2021"
publish = false

[dependencies]
nalgebra = "*"
rayon = "1"
smallvec = "1"
thiserror = "1"
