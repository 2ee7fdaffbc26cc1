//! A transactional, byte-oriented key-value store for a browser wallet.
//!
//! Keys and values are arbitrary byte strings. Keys are ordered
//! lexicographically and related records are found by prefix scans.

pub mod client;
pub mod db;
pub mod durable;
pub mod error;
pub mod hex;
pub mod model;
pub mod order;
pub mod prefix;
pub mod protocol;
