//! An in-memory key/value cache with time-stamped values, expiry, history
//! records and publish/subscribe fan-out, speaking a line-oriented protocol.
//!
//! The modules hold the verified logic; sockets, files, threads and the clock
//! are left to the program that embeds the library.

pub mod text;
pub mod stamp;
pub mod entry;
pub mod message;
pub mod database;
pub mod updater;
pub mod store_flat;
pub mod handler;
pub mod server;
