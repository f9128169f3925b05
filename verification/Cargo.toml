[package]
name = "runa"
version = "0.1.0"
edition = "2021"
publish = false

[dependencies]
ahash = "=0.8.12"
async-broadcast = "=0.5.1"
async-io = "=1.13.0"
darling = "=0.14.4"
dlv-list = "=0.6.0"
fixed = "=1.31.0"
futures-core = "=0.3.34"
futures-lite = "=1.13.0"
hashbrown = "=0.13.2"
heck = "=0.4.1"
lazy_static = "=1.5.1"
libc = "=0.2.191"
linkify = "=0.9.0"
nix = { version = "=0.26.4", features = ["socket", "uio", "net", "fs"] }
ordered-float = "=3.9.2"
proc-macro2 = "=1.0.107"
quick-xml = "=0.28.2"
quote = "=1.0.47"
regex = "=1.13.1"
rustix = { version = "=0.37.28", features = ["fs"] }
spin = "=0.9.9"
syn = { version = "=1.0.109", features = ["full", "extra-traits"] }
thiserror = "=1.0.69"
tinyvec = { version = "=1.13.3", features = ["alloc"] }
tinyvecdeq = { version = "=0.1.3", features = ["alloc"] }
xdg = "=2.5.2"

[dev-dependencies]
arbitrary = "1"
rand = { version = "0.8", features = ["small_rng"] }
