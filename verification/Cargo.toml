[package]
name = "wyrd-sync"
version = "0.1.0"
edition = "2021"
publish = false

[dependencies]
chacha20poly1305 = "0.10"
nostr = { version = "0.45", default-features = false, features = ["std", "nip44"] }
secp256k1 = { version = "0.29", features = ["global-context"] }
iroh = { version = "1", default-features = false }
zeroize = "1"
thiserror = "2"
