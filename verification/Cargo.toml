[package]
name = "bitcoin_blockchain_query"
version = "0.1.0"
edition = "2021"
publish = false

[dependencies]
bitcoind-request = "=0.1.17"
electrs-query = "=0.1.2"
jsonrpc = "=0.13.0"
