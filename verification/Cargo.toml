[package]
name = "engine"
version = "0.11.0"
edition = "2021"
publish = false

[dependencies]
agave-feature-set = { version = "=4.1.2", features = ["agave-unstable-api"] }
agave-transaction-view = { version = "=4.1.2", features = ["agave-unstable-api"] }
ahash = "=0.8.12"
bincode = "=1.3.3"
bitcode = "=0.6.9"
fjall = "=3.1.13"
flume = "=0.12.0"
heed = "=0.23.1"
oneshot = { version = "=0.2.1", features = ["std"] }
parking_lot = "=0.12.5"
rustix = { version = "=1.1.6", features = ["fs"] }
scc = "=3.8.8"
solana-hash = "=4.7.0"
solana-instruction = "=3.5.1"
solana-keypair = "=3.1.2"
solana-message = { version = "=4.6.0", features = ["wincode"] }
solana-pubkey = "=4.4.0"
solana-rent = "=4.5.0"
solana-sdk-ids = "=3.1.0"
solana-signature = { version = "=3.6.0", features = ["verify", "batch-verify"] }
solana-signer = "=3.0.1"
solana-slot-hashes = "=4.0.0"
solana-transaction = { version = "=4.3.0", features = ["wincode"] }
tar = "=0.4.46"
thiserror = "=2.0.21"
tokio = { version = "=1.54.1", features = ["rt", "sync", "time", "macros"] }
twox-hash = "=2.1.5"
wincode = "=0.6.3"
zstd = "=0.13.4"
