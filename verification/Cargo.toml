[package]
name = "oof"
version = "0.1.0"
edition = "2021"
publish = false

[dependencies]
arrayref = "=0.3.9"
bonsai = { version = "=0.2.1", default-features = false, features = ["u128"] }
sha2 = "=0.11.1"
