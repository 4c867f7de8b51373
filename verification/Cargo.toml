[package]
name = "monad_query"
version = "0.1.0"
edition = "2021"
publish = false

[dependencies]
alloy-consensus = { version = "1", default-features = false, features = ["std"] }
alloy-eips = { version = "1", default-features = false, features = ["std"] }
alloy-primitives = { version = "1", default-features = false, features = ["std", "rlp"] }
alloy-rlp = { version = "0.3", default-features = false, features = ["std"] }
alloy-rpc-types-eth = { version = "1", default-features = false, features = ["std"] }
aws-config = { version = "1", default-features = false, features = ["behavior-version-latest", "rt-tokio"] }
aws-sdk-dynamodb = { version = "1", default-features = false, features = ["behavior-version-latest", "rt-tokio"] }
blake3 = { version = "1", default-features = false }
bytes = "1"
eyre = "0.6"
futures = { version = "0.3", default-features = false, features = ["std", "async-await"] }
quick_cache = "0.6"
roaring = "0.11"
serde = { version = "1", features = ["derive"] }
tokio = { version = "1", features = ["macros", "rt-multi-thread", "sync", "time"] }
tracing = { version = "0.1", default-features = false, features = ["std"] }
