//! A key-value store that speaks the Redis wire protocol: the protocol's
//! decoder and encoder, command resolution, a store with lazy expiry, and a
//! reader for the binary snapshot that fills the store at startup.
pub mod decimal;
pub mod resp;
pub mod command;
pub mod store;
pub mod rdb;
pub mod config;
pub mod server;
