[package]
name = "mdbook_ref_resolver"
version = "0.1.0"
edition = "2021"
publish = false

[dependencies]
glob = "0.3"
log = "0.4"
mdbook = { version = "0.4", default-features = false }
serde = { version = "1", features = ["derive"] }
thiserror = "1"
toml = "0.5"

[dev-dependencies]
regex = "1"
