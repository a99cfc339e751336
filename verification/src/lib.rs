//! Routing core of an SSH agent multiplexer.
//!
//! A multiplexer stands between one client and several backend agents and
//! makes them look like a single agent that holds all their keys. This crate
//! is the part of it that decides: how the backends' identity listings are
//! merged, which backend owns which key, and where a request goes. Talking to
//! the backends is left to the caller.

pub mod identity;
pub mod keys;
pub mod laws;
pub mod listing;
pub mod mux;
pub mod routing;
