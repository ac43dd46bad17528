//! An in-memory key-value store speaking the RESP wire format.
//!
//! `proto` holds the value model and the error taxonomy, `codec` parses
//! and encodes RESP frames over byte buffers, `cmd` turns a decoded frame
//! into a typed command and executes it, and `db` is the keyspace with
//! its TTL bookkeeping.

pub mod cmd;
pub mod codec;
pub mod db;
pub mod proto;
