[package]
name = "vmess"
version = "0.1.0"
edition = "2021"
publish = false

[dependencies]
aes = "0.8"
aes-gcm = "0.10"
bytes = "1"
chacha20poly1305 = "0.10"
generic-array = "0.14"
md-5 = "0.10"
rand = "0.8"
sha2 = "0.10"
uuid = "1"

[dev-dependencies]
byteorder = "1"
lz_fnv = "0.1"
