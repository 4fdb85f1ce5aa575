//! The host resolver: OpenSSH-style configuration parsing and alias
//! resolution.
//!
//! The caller reads the configuration file (and its includes) from disk and
//! hands the assembled text in; everything from raw text to a resolved
//! `SshHostConfig` is decided here.

use vstd::prelude::*;

use crate::chars::{
    ci_eq, ci_eq_str, ci_prefix, ci_prefix_str, digits_val, is_digit_char,
    lemma_digits_val_monotone, split_lines, split_lines_str, split_ws, split_whitespace_str,
    strs_views, trim_spec, trim_str,
};
use crate::error::SshError;

verus! {

/// Resolved connection parameters for one host alias.
#[derive(Debug, Clone)]
pub struct SshHostConfig {
    /// The alias (or pattern) this entry was declared under.
    pub host: String,
    /// Host name or address to connect to; required to connect.
    pub hostname: Option<String>,
    /// User to authenticate as; required to connect.
    pub user: Option<String>,
    /// Port, 22 when absent.
    pub port: Option<u16>,
    /// Private-key file for public-key authentication, tilde-expanded.
    pub identity_file: Option<String>,
    /// Proxy command, quotes stripped; parsed but connections are direct.
    pub proxy_command: Option<String>,
    /// Parsed, not otherwise consulted.
    pub proxy_use_fdpass: bool,
    /// If true, skip agent and common-path key probing.
    pub identities_only: bool,
}

/// The mathematical content of one host entry.
pub struct HostConfigV {
    pub host: Seq<char>,
    pub hostname: Option<Seq<char>>,
    pub user: Option<Seq<char>>,
    pub port: Option<u16>,
    pub identity_file: Option<Seq<char>>,
    pub proxy_command: Option<Seq<char>>,
    pub proxy_use_fdpass: bool,
    pub identities_only: bool,
}

impl View for SshHostConfig {
    type V = HostConfigV;

    open spec fn view(&self) -> HostConfigV {
        HostConfigV {
            host: self.host@,
            hostname: match self.hostname {
                Some(ref s) => Some(s@),
                None => None,
            },
            user: match self.user {
                Some(ref s) => Some(s@),
                None => None,
            },
            port: self.port,
            identity_file: match self.identity_file {
                Some(ref s) => Some(s@),
                None => None,
            },
            proxy_command: match self.proxy_command {
                Some(ref s) => Some(s@),
                None => None,
            },
            proxy_use_fdpass: self.proxy_use_fdpass,
            identities_only: self.identities_only,
        }
    }
}

/// A fresh entry for `host` with every field at its default.
pub open spec fn empty_config(host: Seq<char>) -> HostConfigV {
    HostConfigV {
        host: host,
        hostname: None,
        user: None,
        port: None,
        identity_file: None,
        proxy_command: None,
        proxy_use_fdpass: false,
        identities_only: false,
    }
}

/// Tilde expansion: `~/rest` and `~` expand against the home directory,
/// anything else is used as-is.
pub open spec fn expand_path_spec(p: Seq<char>, home: Seq<char>) -> Seq<char> {
    if p.len() >= 2 && p[0] == '~' && p[1] == '/' {
        home + p.skip(1)
    } else if p.len() == 1 && p[0] == '~' {
        home
    } else {
        p
    }
}

/// Expand a leading tilde against the home directory.
pub fn expand_path(path: &str, home: &str) -> (r: String)
    ensures
        r@ == expand_path_spec(path@, home@),
{
    let n: usize = path.unicode_len();
    if n >= 2 && path.get_char(0) == '~' && path.get_char(1) == '/' {
        let rest = path.substring_char(1, n);
        proof {
            assert(rest@ =~= path@.skip(1));
        }
        String::from_str(home).concat(rest)
    } else if n == 1 && path.get_char(0) == '~' {
        String::from_str(home)
    } else {
        String::from_str(path)
    }
}

/// A value counts as true exactly when it is `yes`, `true` or `1`, compared
/// without regard to ASCII case.
pub open spec fn is_truthy(s: Seq<char>) -> bool {
    ci_eq(s, "yes"@) || ci_eq(s, "true"@) || ci_eq(s, "1"@)
}

/// Parse a boolean-valued directive value.
pub fn parse_bool_value(s: &str) -> (r: bool)
    ensures
        r == is_truthy(s@),
{
    ci_eq_str(s, "yes") || ci_eq_str(s, "true") || ci_eq_str(s, "1")
}

/// A port value: decimal digits naming a port from 1 to 65535. Anything
/// else leaves the port unset.
pub open spec fn port_spec(s: Seq<char>) -> Option<u16> {
    if s.len() >= 1 && (forall|i: int| 0 <= i < s.len() ==> is_digit_char(#[trigger] s[i])) && 1
        <= digits_val(s) <= 65535 {
        Some(digits_val(s) as u16)
    } else {
        None
    }
}

/// Parse a port value.
pub fn parse_port_value(s: &str) -> (r: Option<u16>)
    ensures
        r == port_spec(s@),
{
    let n: usize = s.unicode_len();
    if n == 0 {
        return None;
    }
    let mut acc: u32 = 0;
    let mut i: usize = 0;
    proof {
        assert(s@.subrange(0, 0) =~= Seq::<char>::empty());
    }
    while i < n
        invariant
            n == s@.len(),
            0 <= i <= n,
            forall|k: int| 0 <= k < i ==> is_digit_char(#[trigger] s@[k]),
            acc == digits_val(s@.subrange(0, i as int)),
            acc <= 65535,
        decreases n - i,
    {
        let c: char = s.get_char(i);
        if !(c >= '0' && c <= '9') {
            return None;
        }
        let d: u32 = c as u32 - 48;
        let next: u32 = acc * 10 + d;
        proof {
            assert(s@.subrange(0, i + 1).drop_last() =~= s@.subrange(0, i as int));
            assert(digits_val(s@.subrange(0, i + 1)) == acc * 10 + d);
        }
        if next > 65535 {
            proof {
                lemma_digits_val_monotone(s@, i + 1, n as int);
                assert(s@.subrange(0, n as int) =~= s@);
            }
            return None;
        }
        acc = next;
        i += 1;
    }
    proof {
        assert(s@.subrange(0, n as int) =~= s@);
    }
    if acc == 0 {
        return None;
    }
    Some(acc as u16)
}

/// A proxy command surrounded by one matched pair of single or double
/// quotes has the quotes stripped; anything else is kept as written.
pub open spec fn strip_quotes_spec(s: Seq<char>) -> Seq<char> {
    if s.len() >= 2 && ((s[0] == '"' && s.last() == '"') || (s[0] == '\'' && s.last() == '\'')) {
        s.subrange(1, s.len() - 1)
    } else {
        s
    }
}

/// Strip one matched pair of surrounding quotes.
pub fn strip_quotes(s: &str) -> (r: String)
    ensures
        r@ == strip_quotes_spec(s@),
{
    let n: usize = s.unicode_len();
    if n >= 2 {
        let first = s.get_char(0);
        let last = s.get_char(n - 1);
        if (first == '"' && last == '"') || (first == '\'' && last == '\'') {
            return String::from_str(s.substring_char(1, n - 1));
        }
    }
    String::from_str(s)
}

/// One directive line applied to the entry currently being filled. `t` is
/// the line already trimmed; keywords match without regard to ASCII case;
/// a `Port` value that is not a decimal port number leaves the port as it
/// was.
pub open spec fn apply_directive(cfg: HostConfigV, t: Seq<char>, home: Seq<char>) -> HostConfigV {
    if ci_prefix(t, "hostname "@) {
        HostConfigV { hostname: Some(trim_spec(t.skip(9))), ..cfg }
    } else if ci_prefix(t, "user "@) {
        HostConfigV { user: Some(trim_spec(t.skip(5))), ..cfg }
    } else if ci_prefix(t, "port "@) {
        match port_spec(trim_spec(t.skip(5))) {
            Some(p) => HostConfigV { port: Some(p), ..cfg },
            None => cfg,
        }
    } else if ci_prefix(t, "identityfile "@) {
        HostConfigV { identity_file: Some(expand_path_spec(trim_spec(t.skip(13)), home)), ..cfg }
    } else if ci_prefix(t, "proxycommand "@) {
        HostConfigV { proxy_command: Some(strip_quotes_spec(trim_spec(t.skip(13)))), ..cfg }
    } else if ci_prefix(t, "proxyusefdpass "@) {
        HostConfigV { proxy_use_fdpass: is_truthy(trim_spec(t.skip(15))), ..cfg }
    } else if ci_prefix(t, "identitiesonly "@) {
        HostConfigV { identities_only: is_truthy(trim_spec(t.skip(15))), ..cfg }
    } else {
        cfg
    }
}

/// Law: a `Port` directive whose value is not a decimal port number leaves
/// `port` exactly as it was; defaults are applied downstream.
pub proof fn lemma_port_invalid_unchanged(cfg: HostConfigV, t: Seq<char>, home: Seq<char>)
    requires
        ci_prefix(t, "port "@),
        port_spec(trim_spec(t.skip(5))) is None,
    ensures
        apply_directive(cfg, t, home).port == cfg.port,
{
    reveal_strlit("hostname ");
    reveal_strlit("user ");
    reveal_strlit("port ");
    assert(!ci_prefix(t, "hostname "@)) by {
        if ci_prefix(t, "hostname "@) {
            assert(crate::chars::eq_ci(t[0], "hostname "@[0]));
            assert(crate::chars::eq_ci(t[0], "port "@[0]));
        }
    }
    assert(!ci_prefix(t, "user "@)) by {
        if ci_prefix(t, "user "@) {
            assert(crate::chars::eq_ci(t[0], "user "@[0]));
            assert(crate::chars::eq_ci(t[0], "port "@[0]));
        }
    }
}

/// Apply one trimmed directive line to a config entry.
pub fn apply_directive_exec(cfg: &mut SshHostConfig, t: &str, home: &str)
    ensures
        final(cfg)@ == apply_directive(old(cfg)@, t@, home@),
{
    let n: usize = t.unicode_len();
    if ci_prefix_str(t, "hostname ") {
        proof {
            reveal_strlit("hostname ");
        }
        let rest = t.substring_char(9, n);
        proof {
            assert(rest@ =~= t@.skip(9));
        }
        cfg.hostname = Some(String::from_str(trim_str(rest)));
    } else if ci_prefix_str(t, "user ") {
        proof {
            reveal_strlit("user ");
        }
        let rest = t.substring_char(5, n);
        proof {
            assert(rest@ =~= t@.skip(5));
        }
        cfg.user = Some(String::from_str(trim_str(rest)));
    } else if ci_prefix_str(t, "port ") {
        proof {
            reveal_strlit("port ");
        }
        let rest = t.substring_char(5, n);
        proof {
            assert(rest@ =~= t@.skip(5));
        }
        match parse_port_value(trim_str(rest)) {
            Some(p) => {
                cfg.port = Some(p);
            },
            None => {},
        }
    } else if ci_prefix_str(t, "identityfile ") {
        proof {
            reveal_strlit("identityfile ");
        }
        let rest = t.substring_char(13, n);
        proof {
            assert(rest@ =~= t@.skip(13));
        }
        cfg.identity_file = Some(expand_path(trim_str(rest), home));
    } else if ci_prefix_str(t, "proxycommand ") {
        proof {
            reveal_strlit("proxycommand ");
        }
        let rest = t.substring_char(13, n);
        proof {
            assert(rest@ =~= t@.skip(13));
        }
        cfg.proxy_command = Some(strip_quotes(trim_str(rest)));
    } else if ci_prefix_str(t, "proxyusefdpass ") {
        proof {
            reveal_strlit("proxyusefdpass ");
        }
        let rest = t.substring_char(15, n);
        proof {
            assert(rest@ =~= t@.skip(15));
        }
        cfg.proxy_use_fdpass = parse_bool_value(trim_str(rest));
    } else if ci_prefix_str(t, "identitiesonly ") {
        proof {
            reveal_strlit("identitiesonly ");
        }
        let rest = t.substring_char(15, n);
        proof {
            assert(rest@ =~= t@.skip(15));
        }
        cfg.identities_only = parse_bool_value(trim_str(rest));
    }
}


/// The parser's running state: the entries declared so far, in declaration
/// order, and which entry directives currently apply to.
pub struct ParseStateV {
    pub hosts: Seq<HostConfigV>,
    pub current: Option<int>,
}

/// First entry declared under `key`, if any.
pub open spec fn find_host_from(hosts: Seq<HostConfigV>, key: Seq<char>, i: int) -> Option<int>
    decreases hosts.len() - i,
{
    if i < 0 || i >= hosts.len() {
        None
    } else if hosts[i].host == key {
        Some(i)
    } else {
        find_host_from(hosts, key, i + 1)
    }
}

pub open spec fn find_host(hosts: Seq<HostConfigV>, key: Seq<char>) -> Option<int> {
    find_host_from(hosts, key, 0)
}

/// One line of configuration applied to the parser state. Blank lines,
/// comments and `Include` lines change nothing here; a `Host` line selects
/// (declaring if needed) the entry directives go to; any other line is a
/// directive for the selected entry.
pub open spec fn parse_step(st: ParseStateV, line: Seq<char>, home: Seq<char>) -> ParseStateV {
    let t = trim_spec(line);
    if t.len() == 0 || t[0] == '#' {
        st
    } else if ci_prefix(t, "include "@) {
        st
    } else if ci_prefix(t, "host "@) {
        let h = trim_spec(t.skip(5));
        if h.len() == 0 {
            st
        } else {
            match find_host(st.hosts, h) {
                Some(i) => ParseStateV { hosts: st.hosts, current: Some(i) },
                None => ParseStateV {
                    hosts: st.hosts.push(empty_config(h)),
                    current: Some(st.hosts.len() as int),
                },
            }
        }
    } else {
        match st.current {
            Some(i) => if 0 <= i < st.hosts.len() {
                ParseStateV {
                    hosts: st.hosts.update(i, apply_directive(st.hosts[i], t, home)),
                    current: st.current,
                }
            } else {
                st
            },
            None => st,
        }
    }
}

/// The parser state after all lines.
pub open spec fn parse_lines(st: ParseStateV, lines: Seq<Seq<char>>, home: Seq<char>) -> ParseStateV
    decreases lines.len(),
{
    if lines.len() == 0 {
        st
    } else {
        parse_lines(parse_step(st, lines[0], home), lines.skip(1), home)
    }
}

/// The host entries declared by a configuration text, in declaration order.
pub open spec fn parsed_hosts(content: Seq<char>, home: Seq<char>) -> Seq<HostConfigV> {
    parse_lines(
        ParseStateV { hosts: Seq::empty(), current: None },
        split_lines(content),
        home,
    ).hosts
}

/// The views of a vector of host entries.
pub open spec fn cfgs_views(s: Seq<SshHostConfig>) -> Seq<HostConfigV> {
    s.map_values(|c: SshHostConfig| c@)
}

spec fn mk_state(hosts: Seq<SshHostConfig>, current: Option<usize>) -> ParseStateV {
    ParseStateV {
        hosts: cfgs_views(hosts),
        current: match current {
            Some(i) => Some(i as int),
            None => None,
        },
    }
}

fn find_host_exec(hosts: &Vec<SshHostConfig>, key: &str) -> (r: Option<usize>)
    ensures
        find_host(cfgs_views(hosts@), key@) == match r {
            Some(i) => Some(i as int),
            None => None::<int>,
        },
        r matches Some(i) ==> i < hosts@.len(),
{
    let n: usize = hosts.len();
    let mut i: usize = 0;
    while i < n
        invariant
            n == hosts@.len(),
            0 <= i <= n,
            find_host(cfgs_views(hosts@), key@) == find_host_from(cfgs_views(hosts@), key@, i as int),
        decreases n - i,
    {
        if crate::chars::str_eq(hosts[i].host.as_str(), key) {
            proof {
                assert(cfgs_views(hosts@)[i as int] == hosts@[i as int]@);
            }
            return Some(i);
        }
        proof {
            assert(cfgs_views(hosts@)[i as int] == hosts@[i as int]@);
        }
        i += 1;
    }
    None
}

/// Copy one entry field for field.
fn clone_opt_string(o: &Option<String>) -> (r: Option<String>)
    ensures
        match o {
            Some(s) => r matches Some(t) && t@ == s@,
            None => r is None,
        },
{
    match o {
        Some(s) => Some(s.clone()),
        None => None,
    }
}

impl SshHostConfig {
    /// An exact copy of this entry.
    pub fn duplicate(&self) -> (r: SshHostConfig)
        ensures
            r@ == self@,
    {
        SshHostConfig {
            host: self.host.clone(),
            hostname: clone_opt_string(&self.hostname),
            user: clone_opt_string(&self.user),
            port: self.port,
            identity_file: clone_opt_string(&self.identity_file),
            proxy_command: clone_opt_string(&self.proxy_command),
            proxy_use_fdpass: self.proxy_use_fdpass,
            identities_only: self.identities_only,
        }
    }
}

/// Parse a configuration text into its host entries, in declaration order.
pub fn parse_config_content(content: &str, home: &str) -> (r: Vec<SshHostConfig>)
    ensures
        cfgs_views(r@) == parsed_hosts(content@, home@),
{
    let lines = split_lines_str(content);
    let ghost lviews = strs_views(lines@);
    let mut hosts: Vec<SshHostConfig> = Vec::new();
    let mut current: Option<usize> = None;
    let nl: usize = lines.len();
    let mut li: usize = 0;
    proof {
        assert(lviews.skip(0) =~= lviews);
        assert(cfgs_views(hosts@) =~= Seq::<HostConfigV>::empty());
    }
    while li < nl
        invariant
            nl == lines@.len(),
            lviews == strs_views(lines@),
            lviews == split_lines(content@),
            0 <= li <= nl,
            match current {
                Some(c) => c < hosts@.len(),
                None => true,
            },
            parse_lines(mk_state(hosts@, current), lviews.skip(li as int), home@) == parse_lines(
                ParseStateV { hosts: Seq::empty(), current: None },
                lviews,
                home@,
            ),
        decreases nl - li,
    {
        let ghost st0 = mk_state(hosts@, current);
        let ghost lv = lviews[li as int];
        proof {
            assert(lviews.skip(li as int)[0] == lv);
            assert(lviews.skip(li as int).skip(1) =~= lviews.skip(li + 1));
            assert(parse_lines(st0, lviews.skip(li as int), home@) == parse_lines(
                parse_step(st0, lv, home@),
                lviews.skip(li + 1),
                home@,
            ));
        }
        let line: &String = &lines[li];
        proof {
            assert(line@ == lv);
        }
        let t = trim_str(line.as_str());
        let tn: usize = t.unicode_len();
        if tn == 0 || t.get_char(0) == '#' {
            li += 1;
            continue;
        }
        if ci_prefix_str(t, "include ") {
            li += 1;
            continue;
        }
        if ci_prefix_str(t, "host ") {
            proof {
                reveal_strlit("host ");
            }
            let rest = t.substring_char(5, tn);
            proof {
                assert(rest@ =~= t@.skip(5));
            }
            let h = trim_str(rest);
            if h.unicode_len() == 0 {
                li += 1;
                continue;
            }
            match find_host_exec(&hosts, h) {
                Some(i) => {
                    current = Some(i);
                },
                None => {
                    let ghost pre = hosts@;
                    let idx = hosts.len();
                    hosts.push(
                        SshHostConfig {
                            host: String::from_str(h),
                            hostname: None,
                            user: None,
                            port: None,
                            identity_file: None,
                            proxy_command: None,
                            proxy_use_fdpass: false,
                            identities_only: false,
                        },
                    );
                    current = Some(idx);
                    proof {
                        assert(cfgs_views(hosts@) =~= cfgs_views(pre).push(empty_config(h@)));
                    }
                },
            }
            proof {
                assert(mk_state(hosts@, current) == parse_step(st0, lv, home@));
            }
            li += 1;
            continue;
        }
        match current {
            Some(ci) => {
                let ghost pre = hosts@;
                let mut e = hosts.remove(ci);
                apply_directive_exec(&mut e, t, home);
                hosts.insert(ci, e);
                proof {
                    assert(cfgs_views(hosts@) =~= cfgs_views(pre).update(
                        ci as int,
                        apply_directive(cfgs_views(pre)[ci as int], t@, home@),
                    ));
                    assert(mk_state(hosts@, current) == parse_step(st0, lv, home@));
                }
            },
            None => {
                proof {
                    assert(mk_state(hosts@, current) == parse_step(st0, lv, home@));
                }
            },
        }
        li += 1;
    }
    proof {
        assert(lviews.skip(nl as int) =~= Seq::<Seq<char>>::empty());
    }
    hosts
}

/// Whether the compiled form of `pattern` is a valid regular expression: a
/// name for what `regex::Regex::new` accepts.
pub uninterp spec fn regex_valid(pattern: Seq<char>) -> bool;

/// Whether the regular expression `pattern` matches somewhere in `text`: a
/// name for what `regex::Regex::is_match` returns, a function of the two
/// strings alone.
pub uninterp spec fn regex_accepts(pattern: Seq<char>, text: Seq<char>) -> bool;

/// Relies on `regex::Regex::new` and `Regex::is_match`: whether the pattern
/// compiles, and whether the compiled expression matches the text; both
/// depend on the two strings alone.
#[verifier::external_body]
fn regex_is_match(pattern: &str, text: &str) -> (r: Option<bool>)
    ensures
        r is Some <==> regex_valid(pattern@),
        r matches Some(b) ==> b == regex_accepts(pattern@, text@),
{
    match regex::Regex::new(pattern) {
        Ok(re) => Some(re.is_match(text)),
        Err(_) => None,
    }
}

/// A host pattern with each `*` replaced by `.*`.
pub open spec fn star_pattern(p: Seq<char>) -> Seq<char>
    decreases p.len(),
{
    if p.len() == 0 {
        Seq::empty()
    } else if p[0] == '*' {
        ".*"@ + star_pattern(p.skip(1))
    } else {
        seq![p[0]] + star_pattern(p.skip(1))
    }
}

/// The anchored regular expression a wildcard host pattern turns into.
pub open spec fn anchored(p: Seq<char>) -> Seq<char> {
    "^"@ + star_pattern(p) + "$"@
}

/// The pattern holds at least one `*`.
pub open spec fn has_star(p: Seq<char>) -> bool {
    exists|i: int| 0 <= i < p.len() && p[i] == '*'
}

/// A wildcard pattern matches the alias: it has a `*`, its anchored
/// translation compiles, and the compiled expression matches.
pub open spec fn wildcard_matches(host: Seq<char>, alias: Seq<char>) -> bool {
    has_star(host) && regex_valid(anchored(host)) && regex_accepts(anchored(host), alias)
}

/// First entry, in declaration order, whose wildcard pattern matches.
pub open spec fn find_wildcard_from(hosts: Seq<HostConfigV>, alias: Seq<char>, i: int) -> Option<
    int,
>
    decreases hosts.len() - i,
{
    if i < 0 || i >= hosts.len() {
        None
    } else if wildcard_matches(hosts[i].host, alias) {
        Some(i)
    } else {
        find_wildcard_from(hosts, alias, i + 1)
    }
}

pub open spec fn find_wildcard(hosts: Seq<HostConfigV>, alias: Seq<char>) -> Option<int> {
    find_wildcard_from(hosts, alias, 0)
}

fn has_star_str(s: &str) -> (r: bool)
    ensures
        r == has_star(s@),
{
    let n: usize = s.unicode_len();
    let mut i: usize = 0;
    while i < n
        invariant
            n == s@.len(),
            0 <= i <= n,
            forall|k: int| 0 <= k < i ==> #[trigger] s@[k] != '*',
        decreases n - i,
    {
        if s.get_char(i) == '*' {
            return true;
        }
        i += 1;
    }
    false
}

fn build_anchored(p: &str) -> (r: String)
    ensures
        r@ == anchored(p@),
{
    let mut out = String::from_str("^");
    let n: usize = p.unicode_len();
    let mut i: usize = 0;
    proof {
        assert(p@.skip(0) =~= p@);
    }
    while i < n
        invariant
            n == p@.len(),
            0 <= i <= n,
            out@ + star_pattern(p@.skip(i as int)) == "^"@ + star_pattern(p@),
        decreases n - i,
    {
        let ghost sk = p@.skip(i as int);
        proof {
            assert(sk[0] == p@[i as int]);
            assert(sk.skip(1) =~= p@.skip(i + 1));
        }
        if p.get_char(i) == '*' {
            out.append(".*");
            proof {
                assert(out@ + star_pattern(p@.skip(i + 1)) =~= "^"@ + star_pattern(p@));
            }
        } else {
            let one = p.substring_char(i, i + 1);
            proof {
                assert(one@ =~= seq![p@[i as int]]);
            }
            out.append(one);
            proof {
                assert(out@ + star_pattern(p@.skip(i + 1)) =~= "^"@ + star_pattern(p@));
            }
        }
        i += 1;
    }
    proof {
        assert(p@.skip(n as int) =~= Seq::<char>::empty());
        assert(out@ =~= "^"@ + star_pattern(p@));
    }
    out.append("$");
    proof {
        assert(out@ =~= anchored(p@));
    }
    out
}

/// Resolve `alias` against a configuration text: an exact `Host` entry
/// wins; otherwise the first declared wildcard pattern whose anchored
/// translation matches; otherwise the alias is not found.
pub fn resolve_host_in_content(content: &str, home: &str, alias: &str) -> (r: Result<
    SshHostConfig,
    SshError,
>)
    ensures
        ({
            let hosts = parsed_hosts(content@, home@);
            match r {
                Ok(cfg) => match find_host(hosts, alias@) {
                    Some(i) => cfg@ == hosts[i],
                    None => find_wildcard(hosts, alias@) matches Some(j) && cfg@ == hosts[j],
                },
                Err(e) => find_host(hosts, alias@) is None && find_wildcard(hosts, alias@) is None
                    && (e matches SshError::Resolve(m) && m@ == "Host '"@ + alias@
                    + "' not found in SSH config"@),
            }
        }),
{
    let hosts = parse_config_content(content, home);
    match find_host_exec(&hosts, alias) {
        Some(i) => {
            proof {
                assert(cfgs_views(hosts@)[i as int] == hosts@[i as int]@);
            }
            return Ok(hosts[i].duplicate());
        },
        None => {},
    }
    let n: usize = hosts.len();
    let mut j: usize = 0;
    while j < n
        invariant
            n == hosts@.len(),
            0 <= j <= n,
            cfgs_views(hosts@) == parsed_hosts(content@, home@),
            find_host(cfgs_views(hosts@), alias@) is None,
            find_wildcard(cfgs_views(hosts@), alias@) == find_wildcard_from(
                cfgs_views(hosts@),
                alias@,
                j as int,
            ),
        decreases n - j,
    {
        proof {
            assert(cfgs_views(hosts@)[j as int] == hosts@[j as int]@);
        }
        let hs: &str = hosts[j].host.as_str();
        let mut matched = false;
        if has_star_str(hs) {
            let pat = build_anchored(hs);
            match regex_is_match(pat.as_str(), alias) {
                Some(true) => {
                    matched = true;
                },
                _ => {},
            }
        }
        if matched {
            proof {
                assert(wildcard_matches(cfgs_views(hosts@)[j as int].host, alias@));
            }
            return Ok(hosts[j].duplicate());
        }
        proof {
            assert(!wildcard_matches(cfgs_views(hosts@)[j as int].host, alias@));
        }
        j += 1;
    }
    let mut m = String::from_str("Host '");
    m.append(alias);
    m.append("' not found in SSH config");
    Err(SshError::Resolve(m))
}

/// Relies on `std::path::Path::exists`: whether a filesystem entry is
/// present at the path right now. The answer depends on the machine's disk,
/// so nothing is promised of it.
#[verifier::external_body]
fn path_exists(p: &str) -> bool {
    std::path::Path::new(p).exists()
}

/// The include targets an `Include` line names, tilde-expanded, before the
/// filesystem is consulted.
pub open spec fn include_candidates(line: Seq<char>, home: Seq<char>) -> Seq<Seq<char>> {
    if ci_prefix(line, "include "@) {
        split_ws(trim_spec(line.skip(8))).map_values(|w: Seq<char>| expand_path_spec(w, home))
    } else {
        Seq::empty()
    }
}

/// The include targets of a line that exist on disk, in order. A line
/// without the `Include ` prefix yields nothing; so does a target the
/// filesystem does not show.
pub fn parse_include_directive(line: &str, home: &str) -> (r: Vec<String>)
    ensures
        !ci_prefix(line@, "include "@) ==> r@.len() == 0,
        forall|i: int|
            0 <= i < r@.len() ==> include_candidates(line@, home@).contains(#[trigger] r@[i]@),
{
    if !ci_prefix_str(line, "include ") {
        return Vec::new();
    }
    proof {
        reveal_strlit("include ");
    }
    let n: usize = line.unicode_len();
    let rest = line.substring_char(8, n);
    proof {
        assert(rest@ =~= line@.skip(8));
    }
    let args = trim_str(rest);
    let words = split_whitespace_str(args);
    let ghost cands = include_candidates(line@, home@);
    let wn: usize = words.len();
    let mut out: Vec<String> = Vec::new();
    let mut i: usize = 0;
    while i < wn
        invariant
            wn == words@.len(),
            strs_views(words@) == split_ws(trim_spec(line@.skip(8))),
            cands == include_candidates(line@, home@),
            cands == strs_views(words@).map_values(
                |w: Seq<char>| expand_path_spec(w, home@),
            ),
            0 <= i <= wn,
            forall|k: int| 0 <= k < out@.len() ==> cands.contains(#[trigger] out@[k]@),
        decreases wn - i,
    {
        let expanded = expand_path(words[i].as_str(), home);
        proof {
            assert(strs_views(words@)[i as int] == words@[i as int]@);
            assert(cands[i as int] == expand_path_spec(words@[i as int]@, home@));
        }
        if path_exists(expanded.as_str()) {
            proof {
                assert(expanded@ == cands[i as int]);
            }
            out.push(expanded);
        }
        i += 1;
    }
    out
}


/// One configuration file of the snapshot the expansion works on: the
/// caller reads each reachable file once and hands the pairs in.
pub struct ConfigSource {
    /// The expanded path the file was read from.
    pub path: String,
    /// Its text.
    pub content: String,
}

/// The views of a snapshot.
pub open spec fn files_views(s: Seq<ConfigSource>) -> Seq<(Seq<char>, Seq<char>)> {
    s.map_values(|f: ConfigSource| (f.path@, f.content@))
}

/// The set of paths the snapshot holds.
pub open spec fn paths_set(files: Seq<(Seq<char>, Seq<char>)>) -> Set<Seq<char>> {
    files.map_values(|f: (Seq<char>, Seq<char>)| f.0).to_set()
}

/// First snapshot entry under `path`, if any.
pub open spec fn lookup_file_from(
    files: Seq<(Seq<char>, Seq<char>)>,
    path: Seq<char>,
    i: int,
) -> Option<int>
    decreases files.len() - i,
{
    if i < 0 || i >= files.len() {
        None
    } else if files[i].0 == path {
        Some(i)
    } else {
        lookup_file_from(files, path, i + 1)
    }
}

pub open spec fn lookup_file(files: Seq<(Seq<char>, Seq<char>)>, path: Seq<char>) -> Option<int> {
    lookup_file_from(files, path, 0)
}

proof fn lemma_lookup_in_paths(files: Seq<(Seq<char>, Seq<char>)>, path: Seq<char>, i: int)
    requires
        lookup_file_from(files, path, i) is Some,
    ensures
        paths_set(files).contains(path),
    decreases files.len() - i,
{
    if 0 <= i < files.len() && files[i].0 == path {
        assert(files.map_values(|f: (Seq<char>, Seq<char>)| f.0)[i] == path);
        assert(files.map_values(|f: (Seq<char>, Seq<char>)| f.0).contains(path));
    } else {
        lemma_lookup_in_paths(files, path, i + 1);
    }
}

/// A line that names include targets.
pub open spec fn is_include_line(l: Seq<char>) -> bool {
    ci_prefix(trim_spec(l), "include "@)
}

/// The lines a file contributes itself: everything but its `Include` lines,
/// each with its newline restored.
pub open spec fn kept_of_lines(lines: Seq<Seq<char>>) -> Seq<char>
    decreases lines.len(),
{
    if lines.len() == 0 {
        Seq::empty()
    } else if is_include_line(lines[0]) {
        kept_of_lines(lines.skip(1))
    } else {
        lines[0] + "\n"@ + kept_of_lines(lines.skip(1))
    }
}

/// The include targets a file names, in order, tilde-expanded.
pub open spec fn includes_of_lines(lines: Seq<Seq<char>>, home: Seq<char>) -> Seq<Seq<char>>
    decreases lines.len(),
{
    if lines.len() == 0 {
        Seq::empty()
    } else if is_include_line(lines[0]) {
        include_candidates(trim_spec(lines[0]), home) + includes_of_lines(lines.skip(1), home)
    } else {
        includes_of_lines(lines.skip(1), home)
    }
}

/// The expansion worklist: visit a file, or emit already-assembled text.
pub enum WorkItemV {
    Visit(Seq<char>),
    Emit(Seq<char>),
}

pub open spec fn visits_of(paths: Seq<Seq<char>>) -> Seq<WorkItemV> {
    paths.map_values(|p: Seq<char>| WorkItemV::Visit(p))
}

/// How many snapshot paths are still unvisited: the bound that forces the
/// expansion to terminate, cyclic includes included.
pub open spec fn unvisited_count(
    files: Seq<(Seq<char>, Seq<char>)>,
    visited: Set<Seq<char>>,
) -> int {
    paths_set(files).len() - visited.intersect(paths_set(files)).len()
}

/// The assembled text of the whole worklist. Visiting a file prepends its
/// include targets to the worklist and queues its own kept lines behind
/// them; a path already visited, or absent from the snapshot, contributes
/// nothing. Each visit of a new file shrinks the set of unvisited snapshot
/// paths, which bounds the recursion: expansion terminates on cyclic
/// includes.
pub open spec fn expand_work(
    files: Seq<(Seq<char>, Seq<char>)>,
    home: Seq<char>,
    todo: Seq<WorkItemV>,
    visited: Set<Seq<char>>,
) -> Seq<char>
    decreases unvisited_count(files, visited), todo.len(),
    when visited.finite()
    via expand_work_decreases
{
    if todo.len() == 0 {
        Seq::empty()
    } else {
        match todo[0] {
            WorkItemV::Emit(text) => text + expand_work(files, home, todo.skip(1), visited),
            WorkItemV::Visit(p) => {
                if visited.contains(p) {
                    expand_work(files, home, todo.skip(1), visited)
                } else {
                    match lookup_file(files, p) {
                        None => expand_work(files, home, todo.skip(1), visited),
                        Some(i) => {
                            let lines = split_lines(files[i].1);
                            expand_work(
                                files,
                                home,
                                visits_of(includes_of_lines(lines, home)) + seq![
                                    WorkItemV::Emit(kept_of_lines(lines)),
                                ] + todo.skip(1),
                                visited.insert(p),
                            )
                        },
                    }
                }
            },
        }
    }
}

proof fn lemma_unvisited_count_bounds(files: Seq<(Seq<char>, Seq<char>)>, visited: Set<Seq<char>>)
    ensures
        0 <= unvisited_count(files, visited),
        visited.intersect(paths_set(files)).finite(),
        paths_set(files).finite(),
{
    broadcast use vstd::seq_lib::seq_to_set_is_finite;

    let pset = paths_set(files);
    assert(visited.intersect(pset).subset_of(pset));
    vstd::set_lib::lemma_len_subset(visited.intersect(pset), pset);
}

proof fn lemma_unvisited_count_shrinks(
    files: Seq<(Seq<char>, Seq<char>)>,
    visited: Set<Seq<char>>,
    p: Seq<char>,
)
    requires
        !visited.contains(p),
        lookup_file(files, p) is Some,
    ensures
        unvisited_count(files, visited.insert(p)) < unvisited_count(files, visited),
{
    broadcast use vstd::set::group_set_axioms;

    lemma_unvisited_count_bounds(files, visited);
    let pset = paths_set(files);
    lemma_lookup_in_paths(files, p, 0);
    assert(visited.insert(p).intersect(pset) =~= visited.intersect(pset).insert(p));
    assert(!visited.intersect(pset).contains(p));
}

#[via_fn]
proof fn expand_work_decreases(
    files: Seq<(Seq<char>, Seq<char>)>,
    home: Seq<char>,
    todo: Seq<WorkItemV>,
    visited: Set<Seq<char>>,
)
    {
    lemma_unvisited_count_bounds(files, visited);
    if todo.len() > 0 {
        match todo[0] {
            WorkItemV::Emit(_) => {},
            WorkItemV::Visit(p) => {
                if !visited.contains(p) && lookup_file(files, p) is Some {
                    lemma_unvisited_count_shrinks(files, visited, p);
                    lemma_unvisited_count_bounds(files, visited.insert(p));
                }
            },
        }
    }
}

/// The fully expanded configuration text rooted at `root`.
pub open spec fn expand_config_spec(
    files: Seq<(Seq<char>, Seq<char>)>,
    root: Seq<char>,
    home: Seq<char>,
) -> Seq<char> {
    expand_work(files, home, seq![WorkItemV::Visit(root)], Set::empty())
}

enum WorkItem {
    Visit(String),
    Emit(String),
}

spec fn items_views(s: Seq<WorkItem>) -> Seq<WorkItemV> {
    s.map_values(
        |w: WorkItem|
            match w {
                WorkItem::Visit(p) => WorkItemV::Visit(p@),
                WorkItem::Emit(x) => WorkItemV::Emit(x@),
            },
    )
}

spec fn visited_view(s: Seq<String>) -> Set<Seq<char>> {
    strs_views(s).to_set()
}

fn contains_str(v: &Vec<String>, p: &str) -> (r: bool)
    ensures
        r == visited_view(v@).contains(p@),
{
    let n: usize = v.len();
    let mut i: usize = 0;
    while i < n
        invariant
            n == v@.len(),
            0 <= i <= n,
            forall|k: int| 0 <= k < i ==> strs_views(v@)[k] != p@,
        decreases n - i,
    {
        proof {
            assert(strs_views(v@)[i as int] == v@[i as int]@);
        }
        if crate::chars::str_eq(v[i].as_str(), p) {
            proof {
                assert(strs_views(v@).contains(p@));
            }
            return true;
        }
        i += 1;
    }
    proof {
        if strs_views(v@).contains(p@) {
            let k = choose|k: int| 0 <= k < strs_views(v@).len() && strs_views(v@)[k] == p@;
        }
    }
    false
}

fn lookup_file_exec(files: &Vec<ConfigSource>, p: &str) -> (r: Option<usize>)
    ensures
        lookup_file(files_views(files@), p@) == match r {
            Some(i) => Some(i as int),
            None => None::<int>,
        },
        r matches Some(i) ==> i < files@.len(),
{
    let n: usize = files.len();
    let mut i: usize = 0;
    while i < n
        invariant
            n == files@.len(),
            0 <= i <= n,
            lookup_file(files_views(files@), p@) == lookup_file_from(
                files_views(files@),
                p@,
                i as int,
            ),
        decreases n - i,
    {
        proof {
            assert(files_views(files@)[i as int] == (files@[i as int].path@,
            files@[i as int].content@));
        }
        if crate::chars::str_eq(files[i].path.as_str(), p) {
            return Some(i);
        }
        i += 1;
    }
    None
}

/// The include targets of one trimmed `Include` line, tilde-expanded, not
/// yet checked against anything.
fn include_candidates_exec(t: &str, home: &str) -> (r: Vec<String>)
    ensures
        strs_views(r@) == include_candidates(t@, home@),
{
    if !ci_prefix_str(t, "include ") {
        let empty: Vec<String> = Vec::new();
        proof {
            assert(strs_views(empty@) =~= include_candidates(t@, home@));
        }
        return empty;
    }
    proof {
        reveal_strlit("include ");
    }
    let n: usize = t.unicode_len();
    let rest = t.substring_char(8, n);
    proof {
        assert(rest@ =~= t@.skip(8));
    }
    let args = trim_str(rest);
    let words = split_whitespace_str(args);
    let wn: usize = words.len();
    let mut out: Vec<String> = Vec::new();
    let mut i: usize = 0;
    while i < wn
        invariant
            wn == words@.len(),
            strs_views(words@) == split_ws(trim_spec(t@.skip(8))),
            0 <= i <= wn,
            out@.len() == i,
            forall|k: int|
                0 <= k < i ==> strs_views(out@)[k] == expand_path_spec(
                    strs_views(words@)[k],
                    home@,
                ),
        decreases wn - i,
    {
        proof {
            assert(strs_views(words@)[i as int] == words@[i as int]@);
        }
        let e = expand_path(words[i].as_str(), home);
        let ghost ev = e@;
        let ghost pre = out@;
        out.push(e);
        proof {
            assert(strs_views(out@) =~= strs_views(pre).push(ev));
        }
        i += 1;
    }
    proof {
        assert(strs_views(out@) =~= include_candidates(t@, home@));
    }
    out
}

/// One file's contribution, split: the lines it keeps, and the include
/// targets it names, in order.
fn scan_content(content: &str, home: &str) -> (r: (String, Vec<String>))
    ensures
        r.0@ == kept_of_lines(split_lines(content@)),
        strs_views(r.1@) == includes_of_lines(split_lines(content@), home@),
{
    let lines = split_lines_str(content);
    let ghost lv = strs_views(lines@);
    let mut kept = String::new();
    let mut incs: Vec<String> = Vec::new();
    let nl: usize = lines.len();
    let mut i: usize = 0;
    proof {
        assert(lv.skip(0) =~= lv);
        assert(kept@ + kept_of_lines(lv) =~= kept_of_lines(lv));
        assert(strs_views(incs@) =~= Seq::<Seq<char>>::empty());
        assert(strs_views(incs@) + includes_of_lines(lv, home@) =~= includes_of_lines(lv, home@));
    }
    while i < nl
        invariant
            nl == lines@.len(),
            lv == strs_views(lines@),
            0 <= i <= nl,
            kept_of_lines(lv) == kept@ + kept_of_lines(lv.skip(i as int)),
            includes_of_lines(lv, home@) == strs_views(incs@) + includes_of_lines(
                lv.skip(i as int),
                home@,
            ),
        decreases nl - i,
    {
        let ghost sk = lv.skip(i as int);
        proof {
            assert(sk[0] == lv[i as int]);
            assert(sk.skip(1) =~= lv.skip(i + 1));
            assert(lv[i as int] == lines@[i as int]@);
        }
        let line: &String = &lines[i];
        let t = trim_str(line.as_str());
        if ci_prefix_str(t, "include ") {
            let cands = include_candidates_exec(t, home);
            let ghost cl = include_candidates(trim_spec(lv[i as int]), home@);
            proof {
                assert(strs_views(cands@) == cl);
            }
            let ghost pre = incs@;
            let cn: usize = cands.len();
            let mut c: usize = 0;
            let mut cands_m = cands;
            proof {
                assert(cl.take(0) =~= Seq::<Seq<char>>::empty());
                assert(strs_views(incs@) =~= strs_views(pre) + cl.take(0));
                assert(strs_views(cands_m@) =~= cl.skip(0));
            }
            // move the candidates over one by one, keeping their order
            while c < cn
                invariant
                    cn == cl.len(),
                    0 <= c <= cn,
                    cands_m@.len() == cn - c,
                    strs_views(incs@) == strs_views(pre) + cl.take(c as int),
                    strs_views(cands_m@) == cl.skip(c as int),
                decreases cn - c,
            {
                let ghost prevcm = cands_m@;
                let w = cands_m.remove(0);
                proof {
                    assert(strs_views(prevcm)[0] == prevcm[0]@);
                    assert(cl.skip(c as int)[0] == cl[c as int]);
                    assert(w@ == cl[c as int]);
                    assert(strs_views(cands_m@) =~= strs_views(prevcm).skip(1));
                    assert(strs_views(prevcm).skip(1) =~= cl.skip(c + 1));
                }
                let ghost mid = incs@;
                incs.push(w);
                proof {
                    assert(strs_views(incs@) =~= strs_views(mid).push(cl[c as int]));
                    assert(strs_views(pre) + cl.take(c as int) + seq![cl[c as int]]
                        =~= strs_views(pre) + cl.take(c + 1));
                    assert(strs_views(incs@) =~= strs_views(pre) + cl.take(c + 1));
                }
                c += 1;
            }
            proof {
                assert(cl.take(cn as int) =~= cl);
                assert(strs_views(incs@) =~= strs_views(pre) + cl);
            }
            proof {
                assert(is_include_line(lv[i as int]));
                assert(includes_of_lines(sk, home@) == include_candidates(
                    trim_spec(lv[i as int]),
                    home@,
                ) + includes_of_lines(lv.skip(i + 1), home@));
                assert(kept_of_lines(sk) == kept_of_lines(lv.skip(i + 1)));
            }
        } else {
            proof {
                assert(!is_include_line(lv[i as int]));
                assert(kept_of_lines(sk) == lv[i as int] + "\n"@ + kept_of_lines(lv.skip(i + 1)));
            }
            kept.append(line.as_str());
            kept.append("\n");
            proof {
                assert(includes_of_lines(sk, home@) == includes_of_lines(lv.skip(i + 1), home@));
            }
        }
        i += 1;
    }
    proof {
        assert(lv.skip(nl as int) =~= Seq::<Seq<char>>::empty());
        assert(kept@ + kept_of_lines(lv.skip(nl as int)) =~= kept@);
        assert(strs_views(incs@) + includes_of_lines(lv.skip(nl as int), home@) =~= strs_views(
            incs@,
        ));
    }
    (kept, incs)
}

/// Expand the configuration rooted at `root` over a snapshot of files:
/// include targets are inlined ahead of each file's own lines, every file
/// contributes at most once, and cyclic includes terminate because each
/// visit retires one snapshot path.
pub fn expand_config(files: &Vec<ConfigSource>, root: &str, home: &str) -> (r: String)
    ensures
        r@ == expand_config_spec(files_views(files@), root@, home@),
{
    broadcast use vstd::seq_lib::seq_to_set_is_finite;

    let ghost fv = files_views(files@);
    let mut todo: Vec<WorkItem> = Vec::new();
    todo.push(WorkItem::Visit(String::from_str(root)));
    let mut visited: Vec<String> = Vec::new();
    let mut out = String::new();
    proof {
        assert(items_views(todo@) =~= seq![WorkItemV::Visit(root@)]);
        assert(visited_view(visited@) =~= Set::<Seq<char>>::empty());
        assert(out@ + expand_work(fv, home@, items_views(todo@), visited_view(visited@))
            =~= expand_config_spec(fv, root@, home@));
    }
    loop
        invariant
            fv == files_views(files@),
            visited_view(visited@).finite(),
            out@ + expand_work(fv, home@, items_views(todo@), visited_view(visited@))
                == expand_config_spec(fv, root@, home@),
        ensures
            out@ == expand_config_spec(fv, root@, home@),
        decreases unvisited_count(fv, visited_view(visited@)), todo@.len(),
    {
        proof {
            lemma_unvisited_count_bounds(fv, visited_view(visited@));
        }
        if todo.len() == 0 {
            proof {
                assert(expand_work(fv, home@, items_views(todo@), visited_view(visited@))
                    =~= Seq::<char>::empty());
                assert(out@ + Seq::<char>::empty() =~= out@);
            }
            break;
        }
        let ghost tv = items_views(todo@);
        let item = todo.remove(0);
        proof {
            assert(items_views(todo@) =~= tv.skip(1));
        }
        match item {
            WorkItem::Emit(text) => {
                proof {
                    assert(tv[0] == WorkItemV::Emit(text@));
                    assert(expand_work(fv, home@, tv, visited_view(visited@)) == text@
                        + expand_work(fv, home@, tv.skip(1), visited_view(visited@)));
                }
                out.append(text.as_str());
            },
            WorkItem::Visit(p) => {
                proof {
                    assert(tv[0] == WorkItemV::Visit(p@));
                }
                if contains_str(&visited, p.as_str()) {
                    proof {
                        assert(expand_work(fv, home@, tv, visited_view(visited@)) == expand_work(
                            fv,
                            home@,
                            tv.skip(1),
                            visited_view(visited@),
                        ));
                    }
                } else {
                    match lookup_file_exec(files, p.as_str()) {
                        None => {
                            proof {
                                assert(expand_work(fv, home@, tv, visited_view(visited@))
                                    == expand_work(fv, home@, tv.skip(1), visited_view(visited@)));
                            }
                        },
                        Some(fi) => {
                            let ghost vpre = visited_view(visited@);
                            proof {
                                lemma_unvisited_count_shrinks(fv, vpre, p@);
                            }
                            let ghost pview = p@;
                            let ghost prevv = visited@;
                            visited.push(p);
                            proof {
                                assert(strs_views(visited@) =~= strs_views(prevv).push(pview));
                                assert forall|x: Seq<char>|
                                    visited_view(visited@).contains(x) <==> vpre.insert(
                                        pview,
                                    ).contains(x) by {
                                    if strs_views(visited@).contains(x) {
                                        let k = choose|k: int|
                                            0 <= k < strs_views(visited@).len() && strs_views(
                                                visited@,
                                            )[k] == x;
                                        if k < prevv.len() {
                                            assert(strs_views(prevv)[k] == x);
                                            assert(strs_views(prevv).contains(x));
                                        }
                                    }
                                    if vpre.contains(x) {
                                        let k = choose|k: int|
                                            0 <= k < strs_views(prevv).len() && strs_views(
                                                prevv,
                                            )[k] == x;
                                        assert(strs_views(visited@)[k] == x);
                                        assert(strs_views(visited@).contains(x));
                                    }
                                    if x == pview {
                                        assert(strs_views(visited@)[prevv.len() as int] == x);
                                        assert(strs_views(visited@).contains(x));
                                    }
                                }
                                assert(visited_view(visited@) =~= vpre.insert(pview));
                            }
                            let (kept, incs) = scan_content(files[fi].content.as_str(), home);
                            proof {
                                assert(fv[fi as int] == (files@[fi as int].path@,
                                files@[fi as int].content@));
                            }
                            let mut nt: Vec<WorkItem> = Vec::new();
                            let inn: usize = incs.len();
                            let mut ii: usize = 0;
                            let mut incs_m = incs;
                            let ghost incv = strs_views(incs_m@);
                            proof {
                                assert(incv.skip(0) =~= incv);
                                assert(items_views(nt@) =~= visits_of(incv.take(0)));
                            }
                            while ii < inn
                                invariant
                                    inn == incs_m@.len() + ii,
                                    0 <= ii <= inn,
                                    incv.len() == inn,
                                    strs_views(incs_m@) == incv.skip(ii as int),
                                    items_views(nt@) == visits_of(incv.take(ii as int)),
                                decreases inn - ii,
                            {
                                let ghost previm = incs_m@;
                                let w = incs_m.remove(0);
                                proof {
                                    assert(strs_views(previm)[0] == previm[0]@);
                                    assert(incv.skip(ii as int)[0] == incv[ii as int]);
                                    assert(w@ == incv[ii as int]);
                                    assert(strs_views(incs_m@) =~= strs_views(previm).skip(1));
                                    assert(strs_views(previm).skip(1) =~= incv.skip(ii + 1));
                                }
                                let ghost ntpre = nt@;
                                nt.push(WorkItem::Visit(w));
                                proof {
                                    assert(items_views(nt@) =~= items_views(ntpre).push(
                                        WorkItemV::Visit(incv[ii as int]),
                                    ));
                                    assert(items_views(ntpre).push(WorkItemV::Visit(
                                        incv[ii as int],
                                    )) =~= visits_of(incv.take(ii + 1)));
                                }
                                ii += 1;
                            }
                            proof {
                                assert(incv.take(inn as int) =~= incv);
                            }
                            let ghost keptv = kept@;
                            let ghost ntv = items_views(nt@);
                            nt.push(WorkItem::Emit(kept));
                            proof {
                                assert(items_views(nt@) =~= ntv.push(WorkItemV::Emit(keptv)));
                            }
                            let ghost ntv2 = items_views(nt@);
                            let ghost restv = items_views(todo@);
                            nt.append(&mut todo);
                            proof {
                                assert(items_views(nt@) =~= ntv2 + restv);
                            }
                            todo = nt;
                            proof {
                                let lines = split_lines(fv[fi as int].1);
                                assert(incv == includes_of_lines(lines, home@));
                                assert(keptv == kept_of_lines(lines));
                                assert(expand_work(fv, home@, tv, vpre) == expand_work(
                                    fv,
                                    home@,
                                    visits_of(includes_of_lines(lines, home@)) + seq![
                                        WorkItemV::Emit(kept_of_lines(lines)),
                                    ] + tv.skip(1),
                                    vpre.insert(pview),
                                ));
                                assert(items_views(todo@) =~= visits_of(
                                    includes_of_lines(lines, home@),
                                ) + seq![WorkItemV::Emit(kept_of_lines(lines))] + tv.skip(1));
                                lemma_unvisited_count_bounds(fv, visited_view(visited@));
                            }
                        },
                    }
                }
            },
        }
    }
    out
}

} // verus!
