[package]
name = "solitaire_solver"
version = "0.1.0"
edition = "2021"
publish = false

[dependencies]
voracious_radix_sort = { version = "=1.2.0", features = ["voracious_multithread"] }
nohash-hasher = "=0.2.0"
brotli = "=9.0.0"
clap = { version = "=4.6.7", features = ["derive"] }
rayon = "=1.12.0"
