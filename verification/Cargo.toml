[package]
name = "snmp_mib_client"
version = "0.1.0"
edition = "2021"
publish = false

[dependencies]
serde = { version = "1", features = ["derive"] }
serde_json = "1"
snmp2 = "*"
quick-xml = "*"
tree-sitter = "*"
tree-sitter-asn1 = "*"
tree-sitter-yang = "*"
tiny_http = "*"
if-addrs = "*"
russh = "*"
tokio = { version = "1", features = ["full"] }
tonic = "*"
prost = "*"
rustls = "*"
