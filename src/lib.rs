//! A key-value and stream store speaking a RESP-style wire protocol: the codec,
//! the storage engine, transactions and the leader/follower replication rules.

pub mod bytes;
pub mod decimal;
pub mod resp;
pub mod stream;
pub mod store;
pub mod clock;
pub mod transaction;
pub mod config;
pub mod replication;
pub mod commands;
pub mod laws;
pub mod rdb;
