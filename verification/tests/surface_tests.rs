use ssh_liaison::auth::{
    auth_exhausted_message, common_key_paths, connection_params, direct_config, AuthLadder,
    AuthStep,
};
use ssh_liaison::error::SshError;
use ssh_liaison::output::CommandOutput;
use ssh_liaison::repl::{
    classify_connect_args, direct_alias, parse_repl_input, repl_prompt, ConnectSpec, ReplCommand,
};
use ssh_liaison::tools::{
    auth_both_failed_message, connect_success_message, direct_connect_followup,
    direct_connect_success_message, no_password_message, read_log_command,
};

#[test]
fn combined_output_rendering() {
    let plain = CommandOutput { stdout: String::from("hello"), stderr: String::new() };
    assert_eq!(plain.combined(), "hello");

    let with_err = CommandOutput { stdout: String::from("out"), stderr: String::from("boom") };
    assert_eq!(with_err.combined(), "out\nSTDERR:\nboom");

    let newline_kept =
        CommandOutput { stdout: String::from("out\n"), stderr: String::from("boom") };
    assert_eq!(newline_kept.combined(), "out\nSTDERR:\nboom");

    let err_only = CommandOutput { stdout: String::from("   "), stderr: String::from("boom") };
    assert_eq!(err_only.combined(), "STDERR:\nboom");

    let empty = CommandOutput::default();
    assert_eq!(empty.combined(), "");
}

#[test]
fn error_messages() {
    assert_eq!(
        SshError::NotConnected(String::from("h1")).message(),
        "Not connected to host 'h1'"
    );
    assert_eq!(SshError::Timeout.message(), "Command timeout after 30s");
    assert_eq!(
        SshError::PromptUnanswered.message(),
        "Command requires an elevation password but none was provided"
    );
    assert_eq!(SshError::Config(String::from("x")).message(), "Configuration error: x");
}

#[test]
fn read_log_command_formats_lines() {
    assert_eq!(read_log_command("/var/log/syslog", 100), "tail -n 100 /var/log/syslog");
    assert_eq!(read_log_command("/tmp/l", -5), "tail -n -5 /tmp/l");
    assert_eq!(read_log_command("/tmp/l", 0), "tail -n 0 /tmp/l");
}

#[test]
fn tool_messages() {
    assert_eq!(connect_success_message("dev"), "Successfully connected to 'dev'");
    assert_eq!(
        direct_connect_success_message("alice", "h", false),
        "Successfully connected to alice@h using SSH keys"
    );
    assert_eq!(
        direct_connect_success_message("alice", "h", true),
        "Successfully connected to alice@h using password"
    );
    assert_eq!(
        auth_both_failed_message("no route"),
        "Authentication failed: SSH keys and password both failed. Last error: no route"
    );
    assert_eq!(
        no_password_message(),
        "SSH key authentication failed and no password provided"
    );
}

#[test]
fn password_fallback_rules() {
    assert_eq!(direct_connect_followup(&Some(String::from("pw"))), Some(String::from("pw")));
    assert_eq!(direct_connect_followup(&Some(String::new())), None);
    assert_eq!(direct_connect_followup(&None), None);
}

#[test]
fn repl_inputs() {
    assert!(matches!(parse_repl_input("   "), ReplCommand::Empty));
    assert!(matches!(parse_repl_input("exit"), ReplCommand::Exit));
    assert!(matches!(parse_repl_input(" quit \n"), ReplCommand::Exit));
    assert!(matches!(parse_repl_input("disconnect"), ReplCommand::Disconnect));
    match parse_repl_input("connect alice host1 pw 2201") {
        ReplCommand::Connect(args) => {
            assert_eq!(args, vec!["alice", "host1", "pw", "2201"]);
        }
        _ => panic!("expected connect"),
    }
    match parse_repl_input("ls -la\n") {
        ReplCommand::Run(c) => assert_eq!(c, "ls -la"),
        _ => panic!("expected run"),
    }
}

#[test]
fn connect_argument_classification() {
    assert!(matches!(classify_connect_args(&vec![]), ConnectSpec::Usage));
    match classify_connect_args(&vec![String::from("dev")]) {
        ConnectSpec::Alias(a) => assert_eq!(a, "dev"),
        _ => panic!("expected alias"),
    }
    match classify_connect_args(&vec![
        String::from("u"),
        String::from("h"),
        String::from("pw"),
        String::from("2202"),
    ]) {
        ConnectSpec::Direct { user, hostname, password, port } => {
            assert_eq!(user, "u");
            assert_eq!(hostname, "h");
            assert_eq!(password.as_deref(), Some("pw"));
            assert_eq!(port, 2202);
        }
        _ => panic!("expected direct"),
    }
    match classify_connect_args(&vec![String::from("u"), String::from("h")]) {
        ConnectSpec::Direct { password, port, .. } => {
            assert_eq!(password, None);
            assert_eq!(port, 22);
        }
        _ => panic!("expected direct"),
    }
    assert_eq!(direct_alias("u", "h"), "u_h");
    assert_eq!(repl_prompt(Some("dev")), "[dev]> ");
    assert_eq!(repl_prompt(None), "ssh> ");
}

#[test]
fn connection_parameter_validation() {
    let ok = direct_config("al", "user", "host", Some(2200));
    let p = connection_params(&ok, "al").unwrap();
    assert_eq!(p.hostname, "host");
    assert_eq!(p.user, "user");
    assert_eq!(p.port, 2200);

    let defaulted = direct_config("al", "user", "host", None);
    assert_eq!(connection_params(&defaulted, "al").unwrap().port, 22);

    let mut broken = direct_config("al", "user", "host", None);
    broken.hostname = None;
    match connection_params(&broken, "al").unwrap_err() {
        SshError::Config(m) => assert_eq!(m, "Hostname not specified for host 'al'"),
        other => panic!("wrong kind: {:?}", other),
    }
}

#[test]
fn ladder_probes_common_keys_in_order() {
    let cfg = direct_config("al", "u", "h", None);
    let mut ladder = AuthLadder::new(&cfg, "/home/u");
    assert!(matches!(ladder.start(), AuthStep::TryAgent));
    match ladder.on_agent(false) {
        AuthStep::CheckKeyExists(p) => assert_eq!(p, "/home/u/.ssh/id_ed25519"),
        _ => panic!("expected key check"),
    }
    match ladder.on_common_check(false) {
        AuthStep::CheckKeyExists(p) => assert_eq!(p, "/home/u/.ssh/id_rsa"),
        _ => panic!("expected key check"),
    }
    match ladder.on_common_check(true) {
        AuthStep::TryKeyFile(p) => assert_eq!(p, "/home/u/.ssh/id_rsa"),
        _ => panic!("expected key attempt"),
    }
    match ladder.on_common_auth(false) {
        AuthStep::CheckKeyExists(p) => assert_eq!(p, "/home/u/.ssh/id_ecdsa"),
        _ => panic!("expected key check"),
    }
    match ladder.on_common_check(false) {
        AuthStep::CheckKeyExists(p) => assert_eq!(p, "/home/u/.ssh/id_dsa"),
        _ => panic!("expected key check"),
    }
    match ladder.on_common_check(false) {
        AuthStep::Failed(SshError::AuthExhausted(m)) => {
            assert_eq!(m, auth_exhausted_message(false, false, false));
            assert!(m.contains("No valid keys found or agent not available"));
        }
        _ => panic!("expected exhaustion"),
    }
}

#[test]
fn ladder_identity_file_is_fatal_when_missing() {
    let mut cfg = direct_config("al", "u", "h", None);
    cfg.identity_file = Some(String::from("/home/u/.ssh/special"));
    let mut ladder = AuthLadder::new(&cfg, "/home/u");
    assert!(matches!(ladder.start(), AuthStep::TryAgent));
    match ladder.on_agent(false) {
        AuthStep::CheckKeyExists(p) => assert_eq!(p, "/home/u/.ssh/special"),
        _ => panic!("expected identity check"),
    }
    match ladder.on_identity_check(false) {
        AuthStep::Failed(SshError::Config(m)) => {
            assert_eq!(
                m,
                "Identity file not found: /home/u/.ssh/special. Check that the file exists and path is correct."
            );
        }
        _ => panic!("expected config failure"),
    }
}

#[test]
fn ladder_identities_only_skips_the_agent() {
    let mut cfg = direct_config("al", "u", "h", None);
    cfg.identities_only = true;
    cfg.identity_file = Some(String::from("/k"));
    let mut ladder = AuthLadder::new(&cfg, "/home/u");
    match ladder.start() {
        AuthStep::CheckKeyExists(p) => assert_eq!(p, "/k"),
        _ => panic!("expected identity check first"),
    }
    match ladder.on_identity_check(true) {
        AuthStep::TryKeyFile(p) => assert_eq!(p, "/k"),
        _ => panic!("expected key attempt"),
    }
    match ladder.on_identity_auth(false, Some("denied")) {
        AuthStep::Failed(SshError::KeyAuth(m)) => {
            assert!(m.contains("/k"));
            assert!(m.contains("denied"));
        }
        _ => panic!("expected key-auth failure"),
    }
}

#[test]
fn ladder_agent_success_authenticates() {
    let cfg = direct_config("al", "u", "h", None);
    let mut ladder = AuthLadder::new(&cfg, "/home/u");
    assert!(matches!(ladder.start(), AuthStep::TryAgent));
    assert!(matches!(ladder.on_agent(true), AuthStep::Authenticated));
}

#[test]
fn common_key_path_order() {
    let keys = common_key_paths("/home/x");
    assert_eq!(
        keys,
        vec![
            "/home/x/.ssh/id_ed25519",
            "/home/x/.ssh/id_rsa",
            "/home/x/.ssh/id_ecdsa",
            "/home/x/.ssh/id_dsa",
        ]
    );
}
