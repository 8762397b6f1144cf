[package]
name = "kawa_broadcast"
version = "0.1.0"
edition = "2021"
publish = false

[dependencies]
amy = "*"
base64 = "0.13"
byteorder = "1"
httparse = "1"
log = "0.4"
sha1 = "0.10"
url = "2"
