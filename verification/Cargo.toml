[package]
name = "html_to_pulldown_cmark_events"
version = "0.1.0"
edition = "2021"
publish = false

[dependencies]
atoi = "=2.0.0"
ego-tree = "=0.11.1"
pulldown-cmark = { version = "=0.9.6", default-features = false }
scraper = "=0.29.0"
