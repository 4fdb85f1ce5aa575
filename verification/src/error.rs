//! The closed set of error kinds that the engine reports.

use vstd::prelude::*;

verus! {

/// Everything that can go wrong in the engine, one variant per caller-visible
/// kind. Each variant carries the detail its human-readable message needs.
#[derive(Debug, Clone)]
pub enum SshError {
    /// Missing or unreadable configuration, a missing required field, or a
    /// specified identity file that does not exist.
    Config(String),
    /// Host alias not found, or name resolution failed.
    Resolve(String),
    /// TCP connect or SSH handshake failed.
    Transport(String),
    /// A specific key or agent authentication attempt failed.
    KeyAuth(String),
    /// Every branch of the authentication ladder failed.
    AuthExhausted(String),
    /// An operation named an alias with no live session.
    NotConnected(String),
    /// A command produced an elevation prompt but no password was provided.
    PromptUnanswered,
    /// The per-command deadline elapsed.
    Timeout,
    /// Unexpected read or write failure on the live channel.
    Io(String),
}

/// The rendered message of an error: a kind tag followed by the detail.
pub open spec fn message_spec(e: SshError) -> Seq<char> {
    match e {
        SshError::Config(d) => "Configuration error: "@ + d@,
        SshError::Resolve(d) => "Resolve error: "@ + d@,
        SshError::Transport(d) => "Transport error: "@ + d@,
        SshError::KeyAuth(d) => "Key authentication failed: "@ + d@,
        SshError::AuthExhausted(d) => d@,
        SshError::NotConnected(alias) => "Not connected to host '"@ + alias@ + "'"@,
        SshError::PromptUnanswered => "Command requires an elevation password but none was provided"@,
        SshError::Timeout => "Command timeout after 30s"@,
        SshError::Io(d) => "I/O error: "@ + d@,
    }
}

impl SshError {
    /// Human-readable rendering of the error.
    pub fn message(&self) -> (r: String)
        ensures
            r@ == message_spec(*self),
    {
        let mut m = String::new();
        match self {
            SshError::Config(d) => {
                m.append("Configuration error: ");
                m.append(d.as_str());
            },
            SshError::Resolve(d) => {
                m.append("Resolve error: ");
                m.append(d.as_str());
            },
            SshError::Transport(d) => {
                m.append("Transport error: ");
                m.append(d.as_str());
            },
            SshError::KeyAuth(d) => {
                m.append("Key authentication failed: ");
                m.append(d.as_str());
            },
            SshError::AuthExhausted(d) => {
                m.append(d.as_str());
            },
            SshError::NotConnected(alias) => {
                m.append("Not connected to host '");
                m.append(alias.as_str());
                m.append("'");
            },
            SshError::PromptUnanswered => {
                m.append("Command requires an elevation password but none was provided");
            },
            SshError::Timeout => {
                m.append("Command timeout after 30s");
            },
            SshError::Io(d) => {
                m.append("I/O error: ");
                m.append(d.as_str());
            },
        }
        m
    }
}

} // verus!
