[package]
name = "yagg"
version = "0.1.0"
edition = "2021"
publish = false

[dependencies]
dotenv = "=0.15.0"
log = "=0.4.34"
reqwest = { version = "=0.12.28", default-features = false, features = ["cookies"] }
scraper = "=0.27.0"
simplelog = "=0.12.2"
takecell = "=0.1.1"
teloxide = { version = "=0.17.0", default-features = false }
tokio = { version = "=1.53.2", default-features = false, features = ["macros", "rt-multi-thread"] }
urlencoding = "=2.1.3"
