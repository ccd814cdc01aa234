[package]
name = "trie_proof"
version = "0.1.0"
edition = "2021"
publish = false

[dependencies]
hex = "0.4"
keccak-hasher = "*"
primitive-types = "*"
rlp = "*"
tiny-keccak = { version = "2.0", features = ["keccak"] }
trie-db = "*"
serde_json = "1"
reqwest = { version = "0.12", default-features = false, features = ["blocking", "json"] }
