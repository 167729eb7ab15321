//! A miner for the rpow2 mint: reads challenges, searches for nonces that solve them on several
//! threads, and keeps the accounts going.
//!
//! A nonce solves a challenge when SHA-256 over the challenge's prefix and the nonce ends in
//! enough zero bits (`pow`). A worker searches one progression of nonces (`miner`), several of
//! them share a challenge (`solver`), tell each other of a solution (`found`, `board`) and add up
//! their hashes (`stats`, `shared`). What comes before and after is decided here too: which
//! accounts there are and how many threads each of them gets (`accounts`), what an account does
//! after each attempt (`session`), and how challenges are fetched ahead of time (`fetch`).
pub mod accounts;
pub mod api;
pub mod board;
pub mod difficulty;
pub mod fetch;
pub mod found;
pub mod hex;
pub mod miner;
pub mod pow;
pub mod session;
pub mod shared;
pub mod solver;
pub mod stats;
pub mod text;
