//! Verified core of a command-line credential helper: the logical model of a
//! named, access-controlled secret container, the operations that create,
//! list, fetch, insert and delete labeled secret records within it, and the
//! codec that turns a stored record into the external JSON credential
//! document expected by a cloud CLI's credential-process protocol.
//!
//! The operating-system secret store itself, argument parsing and interactive
//! prompting are unverified collaborators that call into this crate with
//! plain values.

pub mod codec;
pub mod commands;
pub mod error;
pub mod store;
