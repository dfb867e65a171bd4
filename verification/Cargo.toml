[package]
name = "cms"
version = "0.1.0"
edition = "2021"
publish = false

[dependencies]
const-oid = { version = "0.9", default-features = false }
der = { version = "0.7", default-features = false, features = ["alloc", "oid", "derive"] }
spki = { version = "0.7", default-features = false, features = ["alloc"] }
x509-cert = { version = "0.2", default-features = false }
