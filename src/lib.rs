//! Storage engine for bootloader environment variables: a table of
//! `name=value` pairs kept in a checksummed blob, optionally as two
//! redundant copies that survive an interrupted write.
pub mod backend;
mod bytes;
pub mod codec;
pub mod config;
pub mod engine;
pub mod redundancy;
pub mod table;
