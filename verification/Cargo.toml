[package]
name = "sigdump"
version = "0.1.0"
edition = "2021"
publish = false

[dependencies]
getopts = "=0.2.24"
gimli = "=0.34.0"
memmap = "=0.7.0"
object = { version = "=0.40.0", features = ["write"] }
