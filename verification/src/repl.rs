//! The interactive front-end's decisions: reading one input line into a
//! command, and classifying connect arguments.

use vstd::prelude::*;

use crate::chars::{
    has_prefix, prefix_str, split_ws, split_whitespace_str, str_eq, strs_views, trim_spec, trim_str,
};
use crate::config::{parse_port_value, port_spec};

verus! {

/// What one line of interactive input asks for.
pub enum ReplCommand {
    /// A blank line: prompt again.
    Empty,
    /// Leave, disconnecting first.
    Exit,
    /// Drop the current connection.
    Disconnect,
    /// Connect, with the whitespace-separated arguments after the keyword.
    Connect(Vec<String>),
    /// Anything else: run it on the connected host.
    Run(String),
}

/// Read one input line into a command.
pub fn parse_repl_input(input: &str) -> (r: ReplCommand)
    ensures
        ({
            let t = trim_spec(input@);
            if t.len() == 0 {
                r is Empty
            } else if t == "exit"@ || t == "quit"@ {
                r is Exit
            } else if t == "disconnect"@ {
                r is Disconnect
            } else if has_prefix(t, "connect "@) {
                r matches ReplCommand::Connect(args) && strs_views(args@) == split_ws(t.skip(8))
            } else {
                r matches ReplCommand::Run(c) && c@ == t
            }
        }),
{
    let t = trim_str(input);
    if t.unicode_len() == 0 {
        return ReplCommand::Empty;
    }
    if str_eq(t, "exit") || str_eq(t, "quit") {
        return ReplCommand::Exit;
    }
    if str_eq(t, "disconnect") {
        return ReplCommand::Disconnect;
    }
    if prefix_str(t, "connect ") {
        proof {
            reveal_strlit("connect ");
        }
        let n: usize = t.unicode_len();
        let rest = t.substring_char(8, n);
        proof {
            assert(rest@ =~= trim_spec(input@).skip(8));
        }
        return ReplCommand::Connect(split_whitespace_str(rest));
    }
    ReplCommand::Run(String::from_str(t))
}

/// How the connect arguments are read.
pub enum ConnectSpec {
    /// No arguments: show usage.
    Usage,
    /// One argument: a host alias to resolve.
    Alias(String),
    /// Two or more: user, hostname, optional password, optional port.
    Direct { user: String, hostname: String, password: Option<String>, port: u16 },
}

/// Classify the arguments after `connect`: one argument names an alias, two
/// or more give a direct connection whose port falls back to 22.
pub fn classify_connect_args(args: &Vec<String>) -> (r: ConnectSpec)
    ensures
        ({
            let vs = strs_views(args@);
            if vs.len() == 0 {
                r is Usage
            } else if vs.len() == 1 {
                r matches ConnectSpec::Alias(a) && a@ == vs[0]
            } else {
                r matches ConnectSpec::Direct { user, hostname, password, port } && user@ == vs[0]
                    && hostname@ == vs[1] && (if vs.len() >= 3 {
                    password matches Some(p) && p@ == vs[2]
                } else {
                    password is None
                }) && port == (if vs.len() >= 4 {
                    match port_spec(vs[3]) {
                        Some(p) => p,
                        None => 22u16,
                    }
                } else {
                    22u16
                })
            }
        }),
{
    let n: usize = args.len();
    if n == 0 {
        return ConnectSpec::Usage;
    }
    proof {
        assert(forall|k: int| 0 <= k < args@.len() ==> strs_views(args@)[k] == args@[k]@);
    }
    if n == 1 {
        return ConnectSpec::Alias(args[0].clone());
    }
    let user = args[0].clone();
    let hostname = args[1].clone();
    let password = if n >= 3 {
        Some(args[2].clone())
    } else {
        None
    };
    let port: u16 = if n >= 4 {
        match parse_port_value(args[3].as_str()) {
            Some(p) => p,
            None => 22,
        }
    } else {
        22
    };
    ConnectSpec::Direct { user, hostname, password, port }
}

/// The alias a direct interactive connection is registered under.
pub fn direct_alias(user: &str, hostname: &str) -> (r: String)
    ensures
        r@ == user@ + "_"@ + hostname@,
{
    let mut a = String::from_str(user);
    a.append("_");
    a.append(hostname);
    a
}

/// The interactive prompt: the connected alias in brackets, or a bare
/// prompt when not connected.
pub fn repl_prompt(alias: Option<&str>) -> (r: String)
    ensures
        match alias {
            Some(a) => r@ == "["@ + a@ + "]> "@,
            None => r@ == "ssh> "@,
        },
{
    match alias {
        Some(a) => {
            let mut p = String::from_str("[");
            p.append(a);
            p.append("]> ");
            p
        },
        None => String::from_str("ssh> "),
    }
}

} // verus!
