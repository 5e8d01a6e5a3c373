[package]
name = "ringmon"
version = "0.1.0"
edition = "2021"
publish = false

[dependencies]
rand = "*"
rand_distr = "*"
url = "*"
uuid = { version = "*", features = ["v4"] }
chrono = "*"
serde = { version = "*", features = ["derive"] }
serde_json = "*"
tokio = { version = "*", features = ["macros", "rt-multi-thread", "sync", "time"] }
reqwest = { version = "*", default-features = false, features = ["json"] }
scylla = "*"
get_if_addrs = "*"
actix-web = { version = "*", default-features = false, features = ["macros"] }
