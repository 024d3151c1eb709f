[package]
name = "wal_db"
version = "0.7.0"
edition = "2021"
publish = false

[dependencies]
crc32c = "0.6"
error-forge = "*"
libc = "0.2"
pack-io = "*"
