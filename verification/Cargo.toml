[package]
name = "atlas"
version = "0.1.0"
edition = "2021"
publish = false

[dependencies]
libc = "0.2"
bytemuck = { version = "1", features = ["derive"] }
nix = { version = "0.29", features = ["mman", "fs"] }
io-uring = "0.7"
