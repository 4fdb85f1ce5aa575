//! The session establisher's decisions: connection parameters and the
//! authentication ladder.
//!
//! The ladder is a state machine: the caller performs each outside step
//! (agent query, file check, key attempt) and feeds the outcome back; the
//! machine decides what to try next, in the fixed order the engine
//! prescribes: agent first unless `IdentitiesOnly` is set, then the
//! configured identity file, then the common key paths, stopping at the
//! first success.

use vstd::prelude::*;

use crate::config::SshHostConfig;
use crate::error::SshError;
use crate::chars::strs_views;

verus! {

/// Validated parameters for one connection attempt.
#[derive(Debug)]
pub struct ConnectionParams {
    pub hostname: String,
    pub user: String,
    pub port: u16,
}

/// Extract what a connection needs from a resolved entry: host name and
/// user are required, the port defaults to 22.
pub fn connection_params(config: &SshHostConfig, host_alias: &str) -> (r: Result<
    ConnectionParams,
    SshError,
>)
    ensures
        match r {
            Ok(p) => (config@.hostname matches Some(h) && p.hostname@ == h) && (config@.user
                matches Some(u) && p.user@ == u) && p.port == (match config@.port {
                Some(q) => q,
                None => 22u16,
            }),
            Err(e) => (config@.hostname is None || config@.user is None) && (e matches
            SshError::Config(m) && (if config@.hostname is None {
                m@ == "Hostname not specified for host '"@ + host_alias@ + "'"@
            } else {
                m@ == "User not specified for host '"@ + host_alias@ + "'"@
            })),
        },
{
    let hostname = match &config.hostname {
        Some(h) => h.clone(),
        None => {
            let mut m = String::from_str("Hostname not specified for host '");
            m.append(host_alias);
            m.append("'");
            return Err(SshError::Config(m));
        },
    };
    let user = match &config.user {
        Some(u) => u.clone(),
        None => {
            let mut m = String::from_str("User not specified for host '");
            m.append(host_alias);
            m.append("'");
            return Err(SshError::Config(m));
        },
    };
    let port: u16 = match config.port {
        Some(p) => p,
        None => 22,
    };
    Ok(ConnectionParams { hostname, user, port })
}

/// An entry for a direct connection, no configuration file involved.
pub fn direct_config(host_alias: &str, user: &str, host: &str, port: Option<u16>) -> (r:
    SshHostConfig)
    ensures
        r@.host == host_alias@,
        r@.hostname matches Some(h) && h == host@,
        r@.user matches Some(u) && u == user@,
        r@.port == port,
        r@.identity_file is None,
        r@.proxy_command is None,
        !r@.proxy_use_fdpass,
        !r@.identities_only,
{
    SshHostConfig {
        host: String::from_str(host_alias),
        hostname: Some(String::from_str(host)),
        user: Some(String::from_str(user)),
        port,
        identity_file: None,
        proxy_command: None,
        proxy_use_fdpass: false,
        identities_only: false,
    }
}

/// The common key paths probed when no identity file is configured, in the
/// fixed order they are tried.
pub open spec fn common_key_paths_spec(home: Seq<char>) -> Seq<Seq<char>> {
    seq![
        home + "/.ssh/id_ed25519"@,
        home + "/.ssh/id_rsa"@,
        home + "/.ssh/id_ecdsa"@,
        home + "/.ssh/id_dsa"@,
    ]
}

/// The common key paths under `home`.
pub fn common_key_paths(home: &str) -> (r: Vec<String>)
    ensures
        strs_views(r@) == common_key_paths_spec(home@),
{
    let mut out: Vec<String> = Vec::new();
    out.push(String::from_str(home).concat("/.ssh/id_ed25519"));
    out.push(String::from_str(home).concat("/.ssh/id_rsa"));
    out.push(String::from_str(home).concat("/.ssh/id_ecdsa"));
    out.push(String::from_str(home).concat("/.ssh/id_dsa"));
    proof {
        assert(strs_views(out@) =~= common_key_paths_spec(home@));
    }
    out
}

/// The message reported when every branch of the ladder has failed; it
/// names the conditions that were tried.
pub open spec fn auth_exhausted_message_spec(
    identities_only: bool,
    has_identity_file: bool,
    has_proxy: bool,
) -> Seq<char> {
    let head = "SSH key authentication failed."@;
    let cause = if identities_only {
        if has_identity_file {
            " IdentitiesOnly is set but the specified identity file failed authentication."@
        } else {
            " IdentitiesOnly is set but no IdentityFile was specified."@
        }
    } else {
        " No valid keys found or agent not available."@
    };
    let proxy = if has_proxy {
        " ProxyCommand was specified but connection failed."@
    } else {
        Seq::<char>::empty()
    };
    let check = " Check that:"@;
    let agent = if !identities_only {
        " SSH agent is running,"@
    } else {
        Seq::<char>::empty()
    };
    let keys = if has_identity_file {
        " the identity file exists and has correct permissions (600),"@
    } else if !identities_only {
        " keys exist in ~/.ssh/,"@
    } else {
        Seq::<char>::empty()
    };
    let tail = " and the public key is added to authorized_keys on the remote host."@;
    head + cause + proxy + check + agent + keys + tail
}

/// Build the exhausted-ladder message.
pub fn auth_exhausted_message(identities_only: bool, has_identity_file: bool, has_proxy: bool) -> (r:
    String)
    ensures
        r@ == auth_exhausted_message_spec(identities_only, has_identity_file, has_proxy),
{
    let mut m = String::from_str("SSH key authentication failed.");
    if identities_only {
        if has_identity_file {
            m.append(
                " IdentitiesOnly is set but the specified identity file failed authentication.",
            );
        } else {
            m.append(" IdentitiesOnly is set but no IdentityFile was specified.");
        }
    } else {
        m.append(" No valid keys found or agent not available.");
    }
    if has_proxy {
        m.append(" ProxyCommand was specified but connection failed.");
    }
    m.append(" Check that:");
    if !identities_only {
        m.append(" SSH agent is running,");
    }
    if has_identity_file {
        m.append(" the identity file exists and has correct permissions (600),");
    } else if !identities_only {
        m.append(" keys exist in ~/.ssh/,");
    }
    m.append(" and the public key is added to authorized_keys on the remote host.");
    m
}

/// What the caller must do next while authenticating.
pub enum AuthStep {
    /// Attempt agent authentication for the configured user.
    TryAgent,
    /// Report whether a file exists at this path.
    CheckKeyExists(String),
    /// Attempt public-key authentication with this key file.
    TryKeyFile(String),
    /// The ladder succeeded.
    Authenticated,
    /// Every branch failed, or a branch failed fatally.
    Failed(SshError),
}

enum LadderPhase {
    Start,
    AwaitAgent,
    AwaitIdentityCheck,
    AwaitIdentityAuth,
    AwaitCommonCheck,
    AwaitCommonAuth,
    Done,
}

/// The authentication ladder for one connection attempt.
pub struct AuthLadder {
    identities_only: bool,
    identity_file: Option<String>,
    has_proxy: bool,
    keys: Vec<String>,
    idx: usize,
    phase: LadderPhase,
}

impl AuthLadder {
    pub closed spec fn identities_only_view(self) -> bool {
        self.identities_only
    }

    pub closed spec fn identity_file_view(self) -> Option<Seq<char>> {
        match self.identity_file {
            Some(ref p) => Some(p@),
            None => None,
        }
    }

    pub closed spec fn has_proxy_view(self) -> bool {
        self.has_proxy
    }

    pub closed spec fn keys_view(self) -> Seq<Seq<char>> {
        strs_views(self.keys@)
    }

    pub closed spec fn next_key(self) -> int {
        self.idx as int
    }

    pub closed spec fn at_start(self) -> bool {
        self.phase is Start
    }

    pub closed spec fn awaiting_agent(self) -> bool {
        self.phase is AwaitAgent
    }

    pub closed spec fn awaiting_identity_check(self) -> bool {
        self.phase is AwaitIdentityCheck
    }

    pub closed spec fn awaiting_identity_auth(self) -> bool {
        self.phase is AwaitIdentityAuth
    }

    pub closed spec fn awaiting_common_check(self) -> bool {
        self.phase is AwaitCommonCheck
    }

    pub closed spec fn awaiting_common_auth(self) -> bool {
        self.phase is AwaitCommonAuth
    }

    pub closed spec fn done(self) -> bool {
        self.phase is Done
    }

    /// The configuration and the probing order are fixed for the whole
    /// attempt.
    pub open spec fn same_setup(pre: Self, post: Self) -> bool {
        post.identities_only_view() == pre.identities_only_view()
            && post.identity_file_view() == pre.identity_file_view() && post.has_proxy_view()
            == pre.has_proxy_view() && post.keys_view() == pre.keys_view()
    }

    /// The failure that ends the ladder when no branch authenticated.
    pub open spec fn is_exhausted_error(self, e: SshError) -> bool {
        e matches SshError::AuthExhausted(m) && m@ == auth_exhausted_message_spec(
            self.identities_only_view(),
            self.identity_file_view() is Some,
            self.has_proxy_view(),
        )
    }

    /// Set up the ladder for a resolved entry.
    pub fn new(config: &SshHostConfig, home: &str) -> (r: AuthLadder)
        ensures
            r.at_start(),
            r.identities_only_view() == config@.identities_only,
            r.identity_file_view() == config@.identity_file,
            r.has_proxy_view() == (config@.proxy_command is Some),
            r.keys_view() == common_key_paths_spec(home@),
            r.next_key() == 0,
    {
        let identity_file = match &config.identity_file {
            Some(p) => Some(p.clone()),
            None => None,
        };
        let has_proxy = match &config.proxy_command {
            Some(_) => true,
            None => false,
        };
        AuthLadder {
            identities_only: config.identities_only,
            identity_file,
            has_proxy,
            keys: common_key_paths(home),
            idx: 0,
            phase: LadderPhase::Start,
        }
    }

    /// After the agent (when the agent is skipped or has failed): the
    /// configured identity file comes next, then the common keys, then
    /// exhaustion.
    fn after_agent(&mut self) -> (r: AuthStep)
        requires
            old(self).next_key() == 0,
            old(self).keys_view().len() == 4,
        ensures
            Self::same_setup(*old(self), *final(self)),
            final(self).next_key() == old(self).next_key(),
            match old(self).identity_file_view() {
                Some(p) => final(self).awaiting_identity_check() && (r matches
                AuthStep::CheckKeyExists(q) && q@ == p),
                None => if !old(self).identities_only_view() {
                    final(self).awaiting_common_check() && (r matches AuthStep::CheckKeyExists(q)
                        && old(self).next_key() < old(self).keys_view().len() && q@ == old(
                        self,
                    ).keys_view()[old(self).next_key()])
                } else {
                    final(self).done() && (r matches AuthStep::Failed(e) && old(self).is_exhausted_error(e))
                },
            },
    {
        match &self.identity_file {
            Some(p) => {
                let step = AuthStep::CheckKeyExists(p.clone());
                self.phase = LadderPhase::AwaitIdentityCheck;
                step
            },
            None => {
                if !self.identities_only {
                    let step = AuthStep::CheckKeyExists(self.keys[self.idx].clone());
                    self.phase = LadderPhase::AwaitCommonCheck;
                    proof {
                        assert(strs_views(self.keys@)[self.idx as int] == self.keys@[
                            self.idx as int
                        ]@);
                    }
                    step
                } else {
                    self.phase = LadderPhase::Done;
                    AuthStep::Failed(
                        SshError::AuthExhausted(
                            auth_exhausted_message(self.identities_only, false, self.has_proxy),
                        ),
                    )
                }
            },
        }
    }

    /// Begin: the agent is tried first, unless `IdentitiesOnly` forbids it.
    pub fn start(&mut self) -> (r: AuthStep)
        requires
            old(self).at_start(),
            old(self).next_key() == 0,
            old(self).keys_view().len() == 4,
        ensures
            Self::same_setup(*old(self), *final(self)),
            if !old(self).identities_only_view() {
                final(self).awaiting_agent() && r is TryAgent
            } else {
                match old(self).identity_file_view() {
                    Some(p) => final(self).awaiting_identity_check() && (r matches
                    AuthStep::CheckKeyExists(q) && q@ == p),
                    None => final(self).done() && (r matches AuthStep::Failed(e) && old(
                        self,
                    ).is_exhausted_error(e)),
                }
            },
    {
        if !self.identities_only {
            self.phase = LadderPhase::AwaitAgent;
            AuthStep::TryAgent
        } else {
            self.after_agent()
        }
    }

    /// The agent attempt came back; it counts only if the library call
    /// succeeded and the session then reported itself authenticated.
    pub fn on_agent(&mut self, accepted: bool) -> (r: AuthStep)
        requires
            old(self).awaiting_agent(),
            old(self).next_key() == 0,
            old(self).keys_view().len() == 4,
        ensures
            Self::same_setup(*old(self), *final(self)),
            if accepted {
                final(self).done() && r is Authenticated
            } else {
                match old(self).identity_file_view() {
                    Some(p) => final(self).awaiting_identity_check() && (r matches
                    AuthStep::CheckKeyExists(q) && q@ == p),
                    None => if !old(self).identities_only_view() {
                        final(self).awaiting_common_check() && (r matches
                        AuthStep::CheckKeyExists(q) && old(self).keys_view().len() > 0 && q@
                            == old(self).keys_view()[0])
                    } else {
                        final(self).done() && (r matches AuthStep::Failed(e) && old(self).is_exhausted_error(e))
                    },
                }
            },
    {
        if accepted {
            self.phase = LadderPhase::Done;
            AuthStep::Authenticated
        } else {
            self.after_agent()
        }
    }

    /// The existence check for the configured identity file came back: a
    /// missing file is a fatal configuration error.
    pub fn on_identity_check(&mut self, exists: bool) -> (r: AuthStep)
        requires
            old(self).awaiting_identity_check(),
            old(self).identity_file_view() is Some,
        ensures
            Self::same_setup(*old(self), *final(self)),
            ({
                let p = old(self).identity_file_view()->Some_0;
                if exists {
                    final(self).awaiting_identity_auth() && (r matches AuthStep::TryKeyFile(q)
                        && q@ == p)
                } else {
                    final(self).done() && (r matches AuthStep::Failed(e) && e matches
                    SshError::Config(m) && m@ == "Identity file not found: "@ + p
                        + ". Check that the file exists and path is correct."@)
                }
            }),
    {
        let p = match &self.identity_file {
            Some(p) => p.clone(),
            None => {
                proof {
                    assert(false);
                }
                String::new()
            },
        };
        if exists {
            self.phase = LadderPhase::AwaitIdentityAuth;
            AuthStep::TryKeyFile(p)
        } else {
            self.phase = LadderPhase::Done;
            let mut m = String::from_str("Identity file not found: ");
            m.append(p.as_str());
            m.append(". Check that the file exists and path is correct.");
            AuthStep::Failed(SshError::Config(m))
        }
    }

    /// The configured identity file was tried. A library error is fatal and
    /// cites the file; success counts only with the session authenticated;
    /// anything else exhausts the ladder, as the identity file was the only
    /// remaining branch.
    pub fn on_identity_auth(&mut self, accepted: bool, error: Option<&str>) -> (r: AuthStep)
        requires
            old(self).awaiting_identity_auth(),
            old(self).identity_file_view() is Some,
        ensures
            Self::same_setup(*old(self), *final(self)),
            final(self).done(),
            ({
                let p = old(self).identity_file_view()->Some_0;
                if accepted {
                    r is Authenticated
                } else {
                    match error {
                        Some(e) => r matches AuthStep::Failed(err) && err matches
                        SshError::KeyAuth(m) && m@ == "Authentication failed with identity file "@
                            + p + ". Error: "@ + e@
                            + ". Make sure the key is added to authorized_keys on the remote host."@,
                        None => (r matches AuthStep::Failed(e) && old(self).is_exhausted_error(e)),
                    }
                }
            }),
    {
        self.phase = LadderPhase::Done;
        if accepted {
            return AuthStep::Authenticated;
        }
        match error {
            Some(e) => {
                let p = match &self.identity_file {
                    Some(p) => p.clone(),
                    None => {
                        proof {
                            assert(false);
                        }
                        String::new()
                    },
                };
                let mut m = String::from_str("Authentication failed with identity file ");
                m.append(p.as_str());
                m.append(". Error: ");
                m.append(e);
                m.append(". Make sure the key is added to authorized_keys on the remote host.");
                AuthStep::Failed(SshError::KeyAuth(m))
            },
            None => {
                AuthStep::Failed(
                    SshError::AuthExhausted(
                        auth_exhausted_message(self.identities_only, true, self.has_proxy),
                    ),
                )
            },
        }
    }

    /// Advance to the next common key, or exhaust the ladder.
    fn next_common(&mut self) -> (r: AuthStep)
        requires
            old(self).identity_file_view() is None,
            old(self).next_key() < old(self).keys_view().len(),
        ensures
            Self::same_setup(*old(self), *final(self)),
            final(self).next_key() == old(self).next_key() + 1,
            (if old(self).next_key() + 1 < old(self).keys_view().len() {
                final(self).awaiting_common_check() && (r matches AuthStep::CheckKeyExists(q) && q@
                    == old(self).keys_view()[old(self).next_key() + 1])
            } else {
                final(self).done() && (r matches AuthStep::Failed(e) && old(self).is_exhausted_error(e))
            }),
    {
        let kn: usize = self.keys.len();
        self.idx = self.idx + 1;
        if self.idx < kn {
            self.phase = LadderPhase::AwaitCommonCheck;
            proof {
                assert(strs_views(self.keys@)[self.idx as int] == self.keys@[self.idx as int]@);
            }
            AuthStep::CheckKeyExists(self.keys[self.idx].clone())
        } else {
            self.phase = LadderPhase::Done;
            AuthStep::Failed(
                SshError::AuthExhausted(
                    auth_exhausted_message(self.identities_only, false, self.has_proxy),
                ),
            )
        }
    }

    /// The existence check for a common key came back; a missing file is
    /// simply skipped.
    pub fn on_common_check(&mut self, exists: bool) -> (r: AuthStep)
        requires
            old(self).awaiting_common_check(),
            old(self).identity_file_view() is None,
            old(self).next_key() < old(self).keys_view().len(),
        ensures
            Self::same_setup(*old(self), *final(self)),
            (if exists {
                final(self).awaiting_common_auth() && final(self).next_key() == old(
                    self,
                ).next_key() && (r matches AuthStep::TryKeyFile(q) && q@ == old(self).keys_view()[
                    old(self).next_key()
                ])
            } else {
                final(self).next_key() == old(self).next_key() + 1 && (if old(self).next_key() + 1
                    < old(self).keys_view().len() {
                    final(self).awaiting_common_check() && (r matches AuthStep::CheckKeyExists(q)
                        && q@ == old(self).keys_view()[old(self).next_key() + 1])
                } else {
                    final(self).done() && (r matches AuthStep::Failed(e) && old(self).is_exhausted_error(e))
                })
            }),
    {
        if exists {
            self.phase = LadderPhase::AwaitCommonAuth;
            proof {
                assert(strs_views(self.keys@)[self.idx as int] == self.keys@[self.idx as int]@);
            }
            AuthStep::TryKeyFile(self.keys[self.idx].clone())
        } else {
            self.next_common()
        }
    }

    /// A common key was tried; only a session-confirmed success stops the
    /// probe, every other outcome moves to the next key.
    pub fn on_common_auth(&mut self, accepted: bool) -> (r: AuthStep)
        requires
            old(self).awaiting_common_auth(),
            old(self).identity_file_view() is None,
            old(self).next_key() < old(self).keys_view().len(),
        ensures
            Self::same_setup(*old(self), *final(self)),
            (if accepted {
                final(self).done() && r is Authenticated
            } else {
                final(self).next_key() == old(self).next_key() + 1 && (if old(self).next_key() + 1
                    < old(self).keys_view().len() {
                    final(self).awaiting_common_check() && (r matches AuthStep::CheckKeyExists(q)
                        && q@ == old(self).keys_view()[old(self).next_key() + 1])
                } else {
                    final(self).done() && (r matches AuthStep::Failed(e) && old(self).is_exhausted_error(e))
                })
            }),
    {
        if accepted {
            self.phase = LadderPhase::Done;
            AuthStep::Authenticated
        } else {
            self.next_common()
        }
    }
}

} // verus!
