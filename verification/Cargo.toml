[package]
name = "rune-ssa"
version = "0.1.0"
edition = "2021"
publish = false

[dependencies]
hashbrown = "=0.9.1"
runestick = "=0.7.0"
thiserror = "=1.0.69"
