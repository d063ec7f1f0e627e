//! A small log-structured key-value store with a replicated-log consensus
//! layer.
//!
//! The storage half is an append-only segment store with an in-memory key
//! directory, background compaction and a hint-file summary; the consensus
//! half is a per-node follower/candidate/leader state machine that sequences
//! commands and applies the committed ones to the local store.
//!
//! All state here is held in memory; reading and writing the actual files and
//! sockets is left to the surrounding program, which persists the byte images
//! that the codecs in this crate produce and feeds back what it read.

pub mod bit_cask;
pub mod bytes;
pub mod command;
pub mod directory;
pub mod distributed;
pub mod error;
pub mod hint;
pub mod http_text;
pub mod logfile;
pub mod node;
pub mod segment;
pub mod storage;
pub mod text;
pub mod wire;
