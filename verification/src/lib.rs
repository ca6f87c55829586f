//! Verified core logic of a Filecoin-style storage network: CAR archives and
//! CIDs, UnixFS balanced trees, the storage market, payment channels and the
//! small helpers that surround them.

pub mod common;
pub mod varint;
pub mod hashing;
pub mod cid;
pub mod car;
pub mod chunker;
pub mod unixfs;
pub mod stores;
pub mod walk;
pub mod writer;
pub mod payment_channel;
pub mod commd;
pub mod market;
pub mod faucet;
pub mod p2p;
pub mod runtime;
