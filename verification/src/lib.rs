//! Git repositories stored as packfiles in a NEAR contract.
//!
//! The crate holds the whole logic of such a store: packfiles and their deltas,
//! the pkt-line framing of the smart HTTP protocol, the repository contract and the
//! factory that creates repositories, the dialogue of the `near://` remote helper,
//! and the construction of signed transactions.

pub mod browser;
pub mod delta;
pub mod diff;
pub mod digest;
pub mod encoding;
pub mod factory;
pub mod json;
pub mod merge;
pub mod object;
pub mod order;
pub mod outcome;
pub mod packfile;
pub mod packing;
pub mod pktline;
pub mod plain_pack;
pub mod refs;
pub mod remote;
pub mod server;
pub mod storage;
pub mod text;
pub mod transaction;
pub mod varint;
pub mod words;
pub mod zlib;
