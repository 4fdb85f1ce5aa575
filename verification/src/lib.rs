//! Verified core of a persistent-shell SSH execution engine.
//!
//! The library models and verifies the logic of the engine: resolving host
//! aliases from an OpenSSH-style configuration, deciding the authentication
//! ladder, framing commands on a PTY byte stream with a completion marker,
//! cleaning captured output, and keeping a registry of named sessions.
//! All network, file and terminal I/O is performed by unverified callers
//! that drive the state machines defined here.

pub mod ansi;
pub mod auth;
pub mod chars;
pub mod config;
pub mod error;
pub mod executor;
pub mod extract;
pub mod marker;
pub mod output;
pub mod registry;
pub mod repl;
pub mod text;
pub mod tools;
