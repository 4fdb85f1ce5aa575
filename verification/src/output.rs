//! Captured result of one command execution.

use vstd::prelude::*;

use crate::chars::{all_ws, str_all_ws};

verus! {

/// Output from an executed SSH command.
///
/// Under a PTY the remote shell merges the error stream into the output
/// stream, so `stderr` is empty in normal operation; the field is kept for
/// format compatibility.
#[derive(Debug, Clone)]
pub struct CommandOutput {
    /// Standard output from the command.
    pub stdout: String,
    /// Standard error output from the command.
    pub stderr: String,
}

/// The combined rendering: the output, then a separating newline if one is
/// needed, then a literal `STDERR:` label line before any non-blank error
/// text.
pub open spec fn combined_spec(out: Seq<char>, err: Seq<char>) -> Seq<char> {
    let base: Seq<char> = if !all_ws(out) {
        out
    } else {
        Seq::empty()
    };
    if !all_ws(err) {
        let sep: Seq<char> = if base.len() > 0 && base.last() != '\n' {
            "\n"@
        } else {
            Seq::empty()
        };
        base + sep + "STDERR:\n"@ + err
    } else {
        base
    }
}

impl Default for CommandOutput {
    /// An empty output with both streams blank.
    fn default() -> (r: Self)
        ensures
            r.stdout@ == Seq::<char>::empty(),
            r.stderr@ == Seq::<char>::empty(),
    {
        Self { stdout: String::new(), stderr: String::new() }
    }
}

impl CommandOutput {
    /// Returns combined stdout and stderr, with proper newline handling.
    pub fn combined(&self) -> (r: String)
        ensures
            r@ == combined_spec(self.stdout@, self.stderr@),
    {
        let mut result = String::new();
        if !str_all_ws(self.stdout.as_str()) {
            result.append(self.stdout.as_str());
        }
        if !str_all_ws(self.stderr.as_str()) {
            let n: usize = result.as_str().unicode_len();
            if n > 0 && result.as_str().get_char(n - 1) != '\n' {
                result.append("\n");
            }
            result.append("STDERR:\n");
            result.append(self.stderr.as_str());
        }
        result
    }
}

} // verus!
