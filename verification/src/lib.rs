//! A minimal in-memory key-value store speaking a Redis-like wire protocol.
//!
//! The crate is organised as a pipeline: the wire decoder in [`resp`] turns a
//! raw frame into entries, the command layer in [`command`] turns entries into
//! a typed command and executes it against a storage engine from [`storage`],
//! and the snapshot codec in [`rdb`] persists a key space as bytes.  The
//! [`server`] module ties the pieces together for one frame at a time; all
//! socket and file handling stays outside the library.

pub mod command;
pub mod rdb;
pub mod resp;
pub mod server;
pub mod storage;
