[package]
name = "plexcryptool"
version = "0.1.0"
edition = "2021"
publish = false

[dependencies]
bitvec = "1"
clap = { version = "4", features = ["derive"] }
clap-num = "1"
num = "0.4"
num-bigint = "0.4"
num-traits = "0.2"
primes = "0.3"
