//! A small RESP-style request server core: an incremental request decoder,
//! a toy key-value executor and the per-connection drain loop.

pub mod codec;
pub mod config;
pub mod conn;
pub mod db;
pub mod error;
pub mod frame;
