[package]
name = "pkg"
version = "0.1.0"
edition = "2021"
publish = false

[dependencies]
git2 = { version = "=0.21.0", default-features = false }
gix = { version = "=0.90.0", default-features = false, features = ["sha1"] }
proc-macro2 = "=1.0.107"
quote = "=1.0.47"
syn = "=2.0.119"
thiserror = "=2.0.21"
