use ssh_liaison::config::{
    expand_path, parse_bool_value, parse_config_content, parse_include_directive, parse_port_value,
    resolve_host_in_content, strip_quotes, ConfigSource, expand_config,
};
use ssh_liaison::error::SshError;

#[test]
fn test_expand_path() {
    let home = "/home/user";
    assert_eq!(expand_path("~/test", home), "/home/user/test");
    assert_eq!(expand_path("~", home), "/home/user");
    assert_eq!(expand_path("/absolute/path", home), "/absolute/path");
    assert_eq!(expand_path("relative", home), "relative");
}

#[test]
fn test_parse_include_directive_helper() {
    let home = "/home/user";
    let result = parse_include_directive("Include /nonexistent/path", home);
    assert!(result.is_empty());

    let result = parse_include_directive("NotInclude something", home);
    assert!(result.is_empty());
}

#[test]
fn test_proxy_command_quote_stripping() {
    assert_eq!(strip_quotes("\"quoted command\""), "quoted command");
    assert_eq!(strip_quotes("'single quoted'"), "single quoted");
    assert_eq!(strip_quotes("'/path/to/cmd' args"), "'/path/to/cmd' args");
}

#[test]
fn test_boolean_parsing() {
    let values_true = ["yes", "Yes", "YES", "true", "True", "1"];
    let values_false = ["no", "No", "NO", "false", "False", "0", "other"];

    for v in values_true {
        assert!(parse_bool_value(v), "Expected true for {}", v);
    }

    for v in values_false {
        assert!(!parse_bool_value(v), "Expected false for {}", v);
    }
}

#[test]
fn test_port_values() {
    assert_eq!(parse_port_value("22"), Some(22));
    assert_eq!(parse_port_value("65535"), Some(65535));
    assert_eq!(parse_port_value("65536"), None);
    assert_eq!(parse_port_value("0"), None);
    assert_eq!(parse_port_value("022"), Some(22));
    assert_eq!(parse_port_value("22xx"), None);
    assert_eq!(parse_port_value(""), None);
    assert_eq!(parse_port_value("-1"), None);
}

#[test]
fn invalid_port_leaves_port_unset() {
    let content = "Host a\n  HostName h\n  User u\n  Port 22xx";
    let cfg = resolve_host_in_content(content, "/home/user", "a").unwrap();
    assert_eq!(cfg.hostname.as_deref(), Some("h"));
    assert_eq!(cfg.user.as_deref(), Some("u"));
    assert_eq!(cfg.port, None);
}

#[test]
fn full_entry_parses() {
    let content = "# comment\n\nHost dev\n  HostName dev.example.org\n  User alice\n  Port 2222\n  IdentityFile ~/.ssh/dev_key\n  ProxyCommand \"ssh -W %h:%p jump\"\n  IdentitiesOnly yes\n  ProxyUseFdpass no\n";
    let cfg = resolve_host_in_content(content, "/home/alice", "dev").unwrap();
    assert_eq!(cfg.host, "dev");
    assert_eq!(cfg.hostname.as_deref(), Some("dev.example.org"));
    assert_eq!(cfg.user.as_deref(), Some("alice"));
    assert_eq!(cfg.port, Some(2222));
    assert_eq!(cfg.identity_file.as_deref(), Some("/home/alice/.ssh/dev_key"));
    assert_eq!(cfg.proxy_command.as_deref(), Some("ssh -W %h:%p jump"));
    assert!(cfg.identities_only);
    assert!(!cfg.proxy_use_fdpass);
}

#[test]
fn directives_match_case_insensitively() {
    let content = "HOST x\n  hostname h1\n  USER u1\n  PORT 2200\n";
    let cfg = resolve_host_in_content(content, "/home/u", "x").unwrap();
    assert_eq!(cfg.hostname.as_deref(), Some("h1"));
    assert_eq!(cfg.user.as_deref(), Some("u1"));
    assert_eq!(cfg.port, Some(2200));
}

#[test]
fn wildcard_patterns_match() {
    let content = "Host prod-*\n  HostName bastion.example.org\n  User ops\n";
    let cfg = resolve_host_in_content(content, "/home/u", "prod-7").unwrap();
    assert_eq!(cfg.hostname.as_deref(), Some("bastion.example.org"));
    assert_eq!(cfg.host, "prod-*");
}

#[test]
fn exact_match_wins_over_wildcard() {
    let content = "Host prod-*\n  HostName generic\n  User a\nHost prod-1\n  HostName special\n  User b\n";
    let cfg = resolve_host_in_content(content, "/home/u", "prod-1").unwrap();
    assert_eq!(cfg.hostname.as_deref(), Some("special"));
}

#[test]
fn unknown_alias_is_resolve_error() {
    let content = "Host a\n  HostName h\n";
    let err = resolve_host_in_content(content, "/home/u", "ghost").unwrap_err();
    match err {
        SshError::Resolve(m) => {
            assert_eq!(m, "Host 'ghost' not found in SSH config");
        }
        other => panic!("wrong error kind: {:?}", other),
    }
}

#[test]
fn declaration_order_is_kept() {
    let content = "Host b\n  HostName hb\nHost a\n  HostName ha\nHost b\n  User ub\n";
    let hosts = parse_config_content(content, "/home/u");
    assert_eq!(hosts.len(), 2);
    assert_eq!(hosts[0].host, "b");
    assert_eq!(hosts[1].host, "a");
    // the second Host b block reopens the first entry
    assert_eq!(hosts[0].user.as_deref(), Some("ub"));
    assert_eq!(hosts[0].hostname.as_deref(), Some("hb"));
}

#[test]
fn include_expansion_terminates_on_cycle() {
    let files = vec![
        ConfigSource {
            path: String::from("/cfg/a"),
            content: String::from("Include /cfg/b\nHost a\n  HostName ha\n"),
        },
        ConfigSource {
            path: String::from("/cfg/b"),
            content: String::from("Include /cfg/a\nHost b\n  HostName hb\n"),
        },
    ];
    let expanded = expand_config(&files, "/cfg/a", "/home/u");
    assert_eq!(expanded, "Host b\n  HostName hb\nHost a\n  HostName ha\n");
    // resolution over the union of both files works
    let a = resolve_host_in_content(&expanded, "/home/u", "a").unwrap();
    assert_eq!(a.hostname.as_deref(), Some("ha"));
    let b = resolve_host_in_content(&expanded, "/home/u", "b").unwrap();
    assert_eq!(b.hostname.as_deref(), Some("hb"));
}

#[test]
fn include_targets_are_prepended() {
    let files = vec![
        ConfigSource {
            path: String::from("/cfg/main"),
            content: String::from("Host m\nInclude /cfg/extra /cfg/missing\n"),
        },
        ConfigSource {
            path: String::from("/cfg/extra"),
            content: String::from("Host e\n"),
        },
    ];
    let expanded = expand_config(&files, "/cfg/main", "/home/u");
    assert_eq!(expanded, "Host e\nHost m\n");
}

#[test]
fn include_tilde_expansion() {
    let files = vec![
        ConfigSource {
            path: String::from("/home/u/.ssh/config"),
            content: String::from("Include ~/.ssh/extra\n"),
        },
        ConfigSource {
            path: String::from("/home/u/.ssh/extra"),
            content: String::from("Host tilde\n  HostName th\n"),
        },
    ];
    let expanded = expand_config(&files, "/home/u/.ssh/config", "/home/u");
    assert_eq!(expanded, "Host tilde\n  HostName th\n");
}
