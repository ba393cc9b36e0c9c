//! An in-memory key-value cache: a bucketed table, a time-ordered expiry
//! index kept consistent with it, and the binary wire codec of its commands
//! and responses.
pub mod wire;
pub mod response;
pub mod command;
pub mod table;
pub mod store;
pub mod service;
