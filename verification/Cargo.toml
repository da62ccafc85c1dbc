[package]
name = "kv_buf"
version = "0.1.0"
edition = "2021"
publish = false

[dependencies]
fallible-iterator = "=0.2.0"
holochain_serialized_bytes = "=0.0.57"
lmdb-rkv = "=0.14.0"
rkv = "=0.10.4"
serde = "=1.0.228"
