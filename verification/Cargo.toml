[package]
name = "my_lang"
version = "0.1.0"
edition = "2021"
publish = false

[dependencies]
rayon = "*"
dashmap = "*"
bump-scope = "*"
once_cell = "*"
aliasable = "*"
thiserror = "*"
boxcar = "*"
