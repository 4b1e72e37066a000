[package]
name = "rzbackup"
version = "0.1.0"
edition = "2021"
publish = false

[dependencies]
adler32 = "1"
byteorder = "1"
clap = "2"
errno = "0.2"
futures = "0.1"
futures-cpupool = "0.1"
libc = "0.2"
lru-cache = "0.1"
num_cpus = "1"
rand = "0.3"
rust-crypto = "0.2"
rustc-serialize = "0.3"

[dev-dependencies]
protobuf = "2"
