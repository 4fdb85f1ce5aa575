//! The tool-call surface's decisions: parameter shapes, result rendering,
//! and the derived commands and messages of the three operations.

use vstd::prelude::*;

use crate::marker::{bytes_to_string_lossy, lemma_ascii_bytes_decode};
use crate::text::{dec_bytes, lemma_dec_bytes_ascii, push_decimal};

verus! {

/// Parameters of the connect-by-alias operation.
pub struct SshConnectParams {
    /// Host alias from the configuration file.
    pub host_alias: String,
}

/// Parameters of the run-command operation.
pub struct SshRunCommandParams {
    /// Host alias to execute on; must be connected first.
    pub host: String,
    /// Command to execute on the remote host.
    pub command: String,
}

/// Parameters of the direct-connect operation.
pub struct SshConnectDirectParams {
    /// Alias to identify this connection in later calls.
    pub host_alias: String,
    /// User to authenticate as.
    pub user: String,
    /// Hostname or address.
    pub hostname: String,
    /// Password to fall back to when key authentication fails.
    pub password: Option<String>,
    /// Port; 22 when absent.
    pub port: Option<u16>,
}

/// Parameters of the read-log operation.
pub struct SshReadLogParams {
    /// Host alias to read from; must be connected first.
    pub host: String,
    /// Path of the log file on the remote host.
    pub file_path: String,
    /// Number of lines to read from the end.
    pub lines: i32,
}

/// The characters of an ASCII byte string.
pub open spec fn ascii_chars_of(b: Seq<u8>) -> Seq<char> {
    Seq::new(b.len(), |i: int| b[i] as char)
}

/// The decimal rendering of a possibly negative number, as bytes.
pub open spec fn int_dec_bytes(n: int) -> Seq<u8> {
    if n < 0 {
        seq![45u8] + dec_bytes((-n) as nat)
    } else {
        dec_bytes(n as nat)
    }
}

/// The decimal rendering of a possibly negative number, as characters.
pub open spec fn int_dec_chars(n: int) -> Seq<char> {
    ascii_chars_of(int_dec_bytes(n))
}

/// Render a line count in decimal.
fn i32_to_string(n: i32) -> (r: String)
    ensures
        r@ == int_dec_chars(n as int),
{
    let mut b: Vec<u8> = Vec::new();
    let m: u64 = if n < 0 {
        b.push(45);
        (-(n as i64)) as u64
    } else {
        n as u64
    };
    push_decimal(m as u128, &mut b);
    proof {
        lemma_dec_bytes_ascii(m as nat);
        assert(b@ =~= int_dec_bytes(n as int));
        assert(crate::marker::ascii_bytes(b@)) by {
            assert forall|i: int| 0 <= i < b@.len() implies #[trigger] b@[i] < 128 by {
                if n < 0 && i == 0 {
                } else {
                    if n < 0 {
                        assert(b@[i] == dec_bytes((-(n as int)) as nat)[i - 1]);
                    } else {
                        assert(b@[i] == dec_bytes(n as nat)[i]);
                    }
                }
            }
        }
        lemma_ascii_bytes_decode(b@);
    }
    let s = bytes_to_string_lossy(&b);
    proof {
        assert(s@ =~= int_dec_chars(n as int));
    }
    s
}

/// The command the read-log operation runs on the remote host.
pub fn read_log_command(file_path: &str, lines: i32) -> (r: String)
    ensures
        r@ == "tail -n "@ + int_dec_chars(lines as int) + " "@ + file_path@,
{
    let mut c = String::from_str("tail -n ");
    c.append(i32_to_string(lines).as_str());
    c.append(" ");
    c.append(file_path);
    c
}

/// The message reported after a successful connect by alias.
pub fn connect_success_message(host_alias: &str) -> (r: String)
    ensures
        r@ == "Successfully connected to '"@ + host_alias@ + "'"@,
{
    let mut m = String::from_str("Successfully connected to '");
    m.append(host_alias);
    m.append("'");
    m
}

/// The message reported after a successful direct connect, naming the
/// method that worked.
pub fn direct_connect_success_message(user: &str, hostname: &str, used_password: bool) -> (r:
    String)
    ensures
        r@ == "Successfully connected to "@ + user@ + "@"@ + hostname@ + (if used_password {
            " using password"@
        } else {
            " using SSH keys"@
        }),
{
    let mut m = String::from_str("Successfully connected to ");
    m.append(user);
    m.append("@");
    m.append(hostname);
    if used_password {
        m.append(" using password");
    } else {
        m.append(" using SSH keys");
    }
    m
}

/// After key authentication fails on a direct connect: the password is
/// tried exactly when one was supplied and it is not empty.
pub fn direct_connect_followup(password: &Option<String>) -> (r: Option<String>)
    ensures
        match password {
            Some(p) => if p@.len() > 0 {
                r matches Some(q) && q@ == p@
            } else {
                r is None
            },
            None => r is None,
        },
{
    match password {
        Some(p) => {
            if p.as_str().unicode_len() > 0 {
                Some(p.clone())
            } else {
                None
            }
        },
        None => None,
    }
}

/// The message when keys failed and the supplied password failed too.
pub fn auth_both_failed_message(last_error: &str) -> (r: String)
    ensures
        r@ == "Authentication failed: SSH keys and password both failed. Last error: "@
            + last_error@,
{
    let mut m = String::from_str(
        "Authentication failed: SSH keys and password both failed. Last error: ",
    );
    m.append(last_error);
    m
}

/// The message when keys failed and no password was supplied.
pub fn no_password_message() -> (r: String)
    ensures
        r@ == "SSH key authentication failed and no password provided"@,
{
    String::from_str("SSH key authentication failed and no password provided")
}

} // verus!
