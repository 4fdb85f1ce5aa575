use ssh_liaison::ansi::clean_ansi_sequences;
use ssh_liaison::extract::{
    extract_output, find_last_marker_position, full_command_bytes, remove_command_echo,
};
use ssh_liaison::marker::generate_marker;

#[test]
fn marker_format() {
    let m = generate_marker();
    assert!(m.starts_with("__SSH_CMD_DONE_"));
    assert!(m.ends_with("__"));
    assert!(m.len() >= 18);
    let digits = &m["__SSH_CMD_DONE_".len()..m.len() - 2];
    assert!(!digits.is_empty());
    assert!(digits.bytes().all(|b| b.is_ascii_digit()));
}

#[test]
fn full_command_layout() {
    let fc = full_command_bytes(b"ls -la", b"__SSH_CMD_DONE_1__");
    assert_eq!(fc, b"ls -la; echo __SSH_CMD_DONE_1__".to_vec());
}

#[test]
fn last_marker_must_sit_on_its_own_line() {
    let marker = b"__SSH_CMD_DONE_7__";
    // the echoed command holds the marker mid-line; only the later
    // occurrence behind a newline counts
    let buf = b"cmd; echo __SSH_CMD_DONE_7__\r\nout\n__SSH_CMD_DONE_7__\r\n".to_vec();
    let pos = find_last_marker_position(&buf, marker).unwrap();
    assert_eq!(pos, 34);
    // no occurrence on its own line: nothing found
    let echoed_only = b"cmd; echo __SSH_CMD_DONE_7__ tail".to_vec();
    assert_eq!(find_last_marker_position(&echoed_only, marker), None);
    // an occurrence at the very start counts
    let at_start = b"__SSH_CMD_DONE_7__\r\n".to_vec();
    assert_eq!(find_last_marker_position(&at_start, marker), Some(0));
}

#[test]
fn command_echo_is_removed_everywhere() {
    let mut buf = b"ls; echo MK\r\nout\nls; echo MK\n".to_vec();
    remove_command_echo(&mut buf, b"ls", b"MK");
    assert_eq!(buf, b"\r\nout\n\n".to_vec());
}

#[test]
fn ansi_sequences_are_stripped() {
    assert_eq!(clean_ansi_sequences(b"\x1b[31mRED\x1b[0m\n"), b"RED\n".to_vec());
    assert_eq!(clean_ansi_sequences(b"\x1b]0;title\x07text"), b"text".to_vec());
    assert_eq!(clean_ansi_sequences(b"\x1bPdevice\x1b\\ok"), b"ok".to_vec());
    assert_eq!(clean_ansi_sequences(b"plain"), b"plain".to_vec());
    // an unterminated sequence is left alone
    assert_eq!(clean_ansi_sequences(b"\x1b[12"), b"\x1b[12".to_vec());
}

#[test]
fn extraction_round_trip() {
    let marker = b"__SSH_CMD_DONE_9__";
    let buf = b"printf x; echo __SSH_CMD_DONE_9__\r\nhello\r\n__SSH_CMD_DONE_9__\r\n$ ".to_vec();
    let out = extract_output(&buf, b"printf x", marker).unwrap();
    // the echo and the marker are gone; the echo's line break leads the
    // output; trailing whitespace is trimmed
    assert_eq!(out, b"\r\nhello".to_vec());
}

#[test]
fn extraction_strips_color_codes() {
    let marker = b"__SSH_CMD_DONE_5__";
    let buf = b"\x1b[31mRED\x1b[0m\r\n__SSH_CMD_DONE_5__\r\n".to_vec();
    let out = extract_output(&buf, b"printf red", marker).unwrap();
    assert_eq!(out, b"RED".to_vec());
}

#[test]
fn extraction_without_marker_yields_nothing() {
    let buf = b"partial output with no marker".to_vec();
    assert_eq!(extract_output(&buf, b"cmd", b"__SSH_CMD_DONE_3__"), None);
}
