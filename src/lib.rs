//! A small key-value server core: an incremental codec for a line-oriented
//! wire format, and the GET / SET / DEL command layer over a shared store.

pub mod decimal;
pub mod frame;
pub mod command;
pub mod store;
pub mod session;
pub mod laws;
