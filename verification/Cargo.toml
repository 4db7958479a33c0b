[package]
name = "ranked_search"
version = "0.1.0"
edition = "2021"
publish = false

[dependencies]
roaring = "*"
levenshtein_automata = "*"
serde = { version = "*", features = ["derive"] }
serde_json = "*"
