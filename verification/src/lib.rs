//! A minimal Redis-style key/value engine: the RESP wire codec, the typed
//! command model, the in-memory database with change notifications, and the
//! dispatch that ties them together. The networking around it lives with
//! the embedding process.

pub mod commands;
pub mod database;
pub mod laws;
pub mod parse;
pub mod resp;
pub mod server;
pub mod text;
