//! A minimal in-memory tabular data store with a verified binary wire codec.
//!
//! Clients send typed commands (create table, insert row, update row, select
//! all, list schema) encoded in a length-prefixed binary protocol; a
//! single-owner execution engine applies them to an in-memory table store and
//! returns a typed result. The codec, the store operations and the per-frame
//! dispatch step are verified; transports (TCP, WebSocket) live outside this
//! crate and only move framed byte buffers.

pub mod commands;
pub mod db;
pub mod db_laws;
pub mod dispatch;
pub mod db_types;
pub mod protocol;
pub mod wire;
pub mod wire_laws;
