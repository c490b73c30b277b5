//! `kvs` is a key-value store built on a log-structured storage engine, with
//! the pieces that a server and a client of the store need.
//!
//! The store keeps its pairs in an append-only log of records and finds them
//! again through an index that it holds in memory. The log is split into
//! generations; when too many of its bytes have turned stale, the store
//! compacts it into a new generation. Every contract of the store is stated
//! over what replaying the log yields, so that a store that is opened again
//! on the same generations is the store that was closed.
//!
//! The crate itself reads and writes no file and opens no socket. The store
//! works on images of the generations and queues every change to them as an
//! effect; the server side is a function from the payload of a request to the
//! payload of the response. Whoever runs the store keeps the generations on
//! disk and moves the payloads over the network.
//!
//! # Modules
//!
//! - [`kv`]: the store, `KvStore`.
//! - [`log`]: the model of the log.
//! - [`directory`]: the generation files of the data directory.
//! - [`command`]: the records of the log and their form in bytes.
//! - [`effects`]: the changes that the store queues for the files.
//! - [`accounting`]: the bytes of the log, live and stale.
//! - [`engine`]: the interface `KvsEngine` of a storage engine.
//! - [`net`]: the messages between client and server and their form in bytes.
//! - [`server`], [`client`]: what either side does with one message.
//! - [`thread`]: the interface `ThreadPool` of a pool of workers.
//! - [`cmdline`], [`common`], [`embedded`]: what the command line, the marker
//!   of the data directory and an embedded alternative engine need.
//! - [`laws`]: what holds across several operations.

pub mod accounting;
pub mod client;
pub mod cmdline;
pub mod command;
pub mod common;
pub mod digits;
pub mod directory;
pub mod effects;
pub mod embedded;
pub mod encoding;
pub mod engine;
pub mod error;
pub mod kv;
pub mod laws;
pub mod log;
pub mod net;
pub mod server;
pub mod thread;

pub use crate::common::{KvRequest, KvResponse};
pub use crate::engine::KvsEngine;
pub use crate::error::KvsError;
pub use crate::kv::KvStore;
pub use crate::net::{KvsRequest, KvsResponse};
pub use crate::thread::ThreadPool;
