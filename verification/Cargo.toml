[package]
name = "calendar"
version = "0.1.0"
edition = "2021"
publish = false

[dependencies]
chrono = "0.4"
chrono-tz = "*"
icalendar = "*"
libadwaita = "*"
gtk4 = "*"
oo7 = "*"
quick-xml = "*"
reqwest = { version = "*", default-features = false, features = ["blocking"] }
rrule = "*"
rusqlite = { version = "*", features = ["bundled"] }
tokio = { version = "1", features = ["rt"] }
uuid = { version = "1", features = ["v4"] }
