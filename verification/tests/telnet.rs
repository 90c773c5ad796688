use teleprompt_cli::telnet::{
    clean_newlines, contains_sudo_prompt, ends_with_any_prompt, find_prompt, handle_telnet_options,
    test_connection, TelnetPhase, TelnetPoll, TelnetSession,
};
use teleprompt_cli::error::TelepromptError;

#[test]
fn test_ends_with_any_prompt() {
    let prompts = &["$", "#", ">"];
    assert!(ends_with_any_prompt("user@host:~$", prompts));
    assert!(ends_with_any_prompt("root@host:~# ", prompts));
    assert!(ends_with_any_prompt("router>", prompts));
    assert!(!ends_with_any_prompt("normal text", prompts));
    assert!(!ends_with_any_prompt("", prompts));
}

#[test]
fn telnet_test_contains_sudo_prompt() {
    assert!(contains_sudo_prompt("[sudo] password for admin:"));
    assert!(contains_sudo_prompt("password:"));
    assert!(contains_sudo_prompt("Password:"));
    assert!(!contains_sudo_prompt("normal prompt $"));
}

#[test]
fn test_clean_newlines() {
    let input = b"line1\r\nline2\r\nline3\r".to_vec();
    let expected = b"line1\nline2\nline3\r".to_vec();
    assert_eq!(clean_newlines(input), expected);

    let input_no_cr = b"line1\nline2\n".to_vec();
    assert_eq!(clean_newlines(input_no_cr.clone()), input_no_cr);
}

#[test]
fn negotiation_declines_every_option() {
    // IAC WILL ECHO, IAC DO TTYPE, IAC WONT 5, text, IAC SB ... IAC SE, IAC IAC, text
    let data = [255u8, 251, 1, 255, 253, 24, 255, 252, 5, b'h', b'i', 255, 250, 24, 1, 255, 240, 255, 255, b'!'];
    let chunk = handle_telnet_options(&data);
    assert_eq!(chunk.text, b"hi!".to_vec());
    assert_eq!(chunk.replies, vec![255u8, 254, 1, 255, 252, 24]);

    let truncated = handle_telnet_options(&[b'a', 255, 251]);
    assert_eq!(truncated.text, b"a".to_vec());
    assert!(truncated.replies.is_empty());
}

#[test]
fn prompts_are_found_case_insensitively() {
    assert_eq!(find_prompt(b"Welcome\r\nLogin: ", &["login:"]), Some((0, 9)));
    assert_eq!(find_prompt(b"user: x\npassword:", &["login:", "password:", "user:"]), Some((1, 8)));
    assert_eq!(find_prompt(b"nothing here", &["login:"]), None);
}

#[test]
fn a_session_logs_in_runs_the_command_and_ends_at_the_prompt() {
    let mut s = TelnetSession::new("admin", &Some("pw".to_string()), "show ver", false);
    assert!(matches!(s.poll(), TelnetPoll::Waiting));
    let step = s.receive(b"Router login: ");
    assert!(step.replies.is_empty());
    match s.poll() {
        TelnetPoll::Send(b) => assert_eq!(b, b"admin\r\n".to_vec()),
        _ => panic!("expected the user name"),
    }
    assert_eq!(s.phase, TelnetPhase::Password);
    s.receive(b"\r\nPassword: ");
    match s.poll() {
        TelnetPoll::Send(b) => assert_eq!(b, b"pw\r\n".to_vec()),
        _ => panic!("expected the password"),
    }
    s.receive(b"\r\nrouter> ");
    match s.poll() {
        TelnetPoll::Send(b) => assert_eq!(b, b"show ver\r\n".to_vec()),
        _ => panic!("expected the command"),
    }
    assert_eq!(s.phase, TelnetPhase::Output);
    let step = s.receive(b"Version 1.0\r\nrouter>");
    assert_eq!(s.phase, TelnetPhase::Finished);
    // Only the prompt character and the white space after it are cut off.
    let out: Vec<u8> = step.emits.concat();
    assert_eq!(out, b"Version 1.0\nrouter".to_vec());
}

#[test]
fn the_telnet_connection_test_needs_exit_status_zero() {
    assert!(test_connection(Ok(0)).is_ok());
    assert_eq!(test_connection(Ok(1)), Err(TelepromptError::Other("Failed to execute test command over Telnet".to_string())));
}
