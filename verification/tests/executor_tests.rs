use ssh_liaison::error::SshError;
use ssh_liaison::executor::{contains_prompt, streaming_cut, ExecAction, Executor};

/// Pull the generated marker back out of the framed command line.
fn marker_of(ex: &Executor, command: &str) -> Vec<u8> {
    let line = ex.command_line();
    let prefix = command.len() + "; echo ".len();
    line[prefix..line.len() - 1].to_vec()
}

#[test]
fn command_line_frames_the_command() {
    let ex = Executor::new("ls -la", None);
    let line = ex.command_line();
    assert!(line.starts_with(b"ls -la; echo __SSH_CMD_DONE_"));
    assert_eq!(*line.last().unwrap(), b'\n');
}

#[test]
fn marker_detection_drain_and_finish() {
    let command = "printf 'hello'";
    let mut ex = Executor::new(command, None);
    let marker = marker_of(&ex, command);

    // echoed command line arrives first: holds the marker mid-line
    let mut echo = ex.command_line();
    echo.pop();
    echo.extend_from_slice(b"\r\n");
    match ex.on_data(&echo) {
        ExecAction::Drain => {}
        other => panic!("expected drain after echo, got {:?}", action_name(&other)),
    }

    // drain: output and the real marker arrive
    let mut tail = b"hello\r\n".to_vec();
    tail.extend_from_slice(&marker);
    tail.extend_from_slice(b"\r\n");
    match ex.on_drain_data(&tail) {
        ExecAction::Finish(out) => {
            assert_eq!(out.stdout, "\r\nhello");
            assert_eq!(out.stderr, "");
        }
        other => panic!("expected finish, got {:?}", action_name(&other)),
    }
}

#[test]
fn chunking_does_not_change_the_result() {
    let command = "printf 'hello'";

    // one big read
    let mut ex1 = Executor::new(command, None);
    let marker1 = marker_of(&ex1, command);
    let mut all = ex1.command_line();
    all.pop();
    all.extend_from_slice(b"\r\nhello\r\n");
    all.extend_from_slice(&marker1);
    all.extend_from_slice(b"\r\n");
    let out1 = match ex1.on_data(&all) {
        ExecAction::Drain => drain_until_finish(&mut ex1),
        other => panic!("expected drain, got {:?}", action_name(&other)),
    };

    // byte-by-byte reads
    let mut ex2 = Executor::new(command, None);
    let marker2 = marker_of(&ex2, command);
    let mut all2 = ex2.command_line();
    all2.pop();
    all2.extend_from_slice(b"\r\nhello\r\n");
    all2.extend_from_slice(&marker2);
    all2.extend_from_slice(b"\r\n");
    let mut out2 = None;
    let mut draining = false;
    for b in all2 {
        let chunk = [b];
        let act = if draining { ex2.on_drain_data(&chunk) } else { ex2.on_data(&chunk) };
        match act {
            ExecAction::Continue => {}
            ExecAction::Drain => draining = true,
            ExecAction::Finish(o) => {
                out2 = Some(o.stdout);
                break;
            }
            other => panic!("unexpected action {:?}", action_name(&other)),
        }
    }
    let out2 = match out2 {
        Some(o) => o,
        None => drain_until_finish(&mut ex2),
    };
    assert_eq!(out1, "\r\nhello");
    assert_eq!(out1, out2);
}

fn drain_until_finish(ex: &mut Executor) -> String {
    for _ in 0..16 {
        match ex.on_drain_timeout() {
            ExecAction::Drain => continue,
            ExecAction::Finish(o) => return o.stdout,
            other => panic!("unexpected drain action {:?}", action_name(&other)),
        }
    }
    panic!("drain never finished");
}

fn action_name(a: &ExecAction) -> &'static str {
    match a {
        ExecAction::Continue => "Continue",
        ExecAction::SendPassword(_) => "SendPassword",
        ExecAction::Drain => "Drain",
        ExecAction::Finish(_) => "Finish",
        ExecAction::Fail(_) => "Fail",
    }
}

#[test]
fn prompt_without_password_fails() {
    let mut ex = Executor::new("sudo -k; sudo true", None);
    match ex.on_data(b"[sudo] password for alice: ") {
        ExecAction::Fail(SshError::PromptUnanswered) => {}
        other => panic!("expected prompt failure, got {:?}", action_name(&other)),
    }
}

#[test]
fn prompt_with_password_is_answered_once() {
    let mut ex = Executor::new("sudo true", Some("hunter2"));
    match ex.on_data(b"Password: ") {
        ExecAction::SendPassword(p) => assert_eq!(p, b"hunter2\n".to_vec()),
        other => panic!("expected password send, got {:?}", action_name(&other)),
    }
    // the prompt text is still in the buffer, but it was answered already
    match ex.on_data(b"more output") {
        ExecAction::Continue => {}
        other => panic!("expected continue, got {:?}", action_name(&other)),
    }
}

#[test]
fn deadline_discards_output() {
    let mut ex = Executor::new("yes", None);
    let _ = ex.on_data(b"partial output");
    match ex.on_deadline() {
        ExecAction::Fail(SshError::Timeout) => {}
        other => panic!("expected timeout, got {:?}", action_name(&other)),
    }
}

#[test]
fn idle_cutoff_returns_cleaned_capture() {
    let mut ex = Executor::new("cat", None);
    let _ = ex.on_data(b"\x1b[1mBOLD\x1b[0m  \r\n");
    let mut last = ExecAction::Continue;
    for _ in 0..11 {
        last = ex.on_no_data(true);
    }
    match last {
        ExecAction::Finish(o) => assert_eq!(o.stdout, "BOLD"),
        other => panic!("expected idle finish, got {:?}", action_name(&other)),
    }
}

#[test]
fn read_errors_and_quiet_ticks_continue() {
    let mut ex = Executor::new("sleep 1", None);
    assert!(matches!(ex.on_read_error(), ExecAction::Continue));
    assert!(matches!(ex.on_tick(false), ExecAction::Continue));
    assert!(matches!(ex.on_no_data(false), ExecAction::Continue));
}

#[test]
fn prompt_detection_literals() {
    assert!(contains_prompt(b"[sudo] password for bob:"));
    assert!(contains_prompt(b"Password:"));
    assert!(!contains_prompt(b"no prompt here"));
}

#[test]
fn streaming_cut_stops_at_first_marker() {
    assert_eq!(streaming_cut(b"before__M__after", b"__M__"), Some(b"before".to_vec()));
    assert_eq!(streaming_cut(b"nothing here", b"__M__"), None);
}
