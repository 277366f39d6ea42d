[package]
name = "asset_tree"
version = "0.1.0"
edition = "2021"
publish = false

[dependencies]
hashbrown = "=0.17.1"
paste = "=1.0.15"
