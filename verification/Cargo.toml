[package]
name = "teamgen"
version = "0.1.0"
edition = "2021"
publish = false

[dependencies]
rand = "0.8"
regex = "1"
serde = { version = "1", features = ["derive"] }
serde_json = "1"
leptos = { version = "0.7", features = ["csr"] }
thaw = { version = "0.4", features = ["csr"] }
palette = "0.7"
gloo-net = "0.6"
web-sys = { version = "0.3", features = ["Window", "Storage", "MediaQueryList", "console"] }
