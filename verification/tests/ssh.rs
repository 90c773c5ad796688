use teleprompt_cli::credentials::{ConnectionType, Device, HostKeyPolicy, OsType};
use teleprompt_cli::error::TelepromptError;
use teleprompt_cli::ssh::{
    clean_sudo_output, contains_sudo_prompt, count_sudo_prompts, detect_sudo_capability,
    device_address, first_auth_step, host_key_check_required, host_key_outcome, is_sudo_command,
    known_host_name, next_auth_step, test_connection, AuthMethod, AuthStep, HostKeyCheck,
    HostKeyOutcome, SudoFilter, SudoProbe, SudoState,
};

fn device(password: Option<&str>, key_path: Option<&str>) -> Device {
    Device {
        name: "srv".to_string(),
        host: "10.0.0.1".to_string(),
        port: 22,
        username: "admin".to_string(),
        password: password.map(|p| p.to_string()),
        key_path: key_path.map(|p| p.to_string()),
        key_passphrase: None,
        connection_type: ConnectionType::Ssh,
        sudo_capable: false,
        sudo_password_required: false,
        os_type: OsType::Linux,
        host_key_policy: HostKeyPolicy::AcceptNew,
    }
}

#[test]
fn ssh_test_contains_sudo_prompt() {
    assert!(contains_sudo_prompt("[sudo] password for user:"));
    assert!(contains_sudo_prompt("password:"));
    assert!(contains_sudo_prompt("Password for root:"));
    assert!(!contains_sudo_prompt("access granted"));
    assert!(!contains_sudo_prompt(""));
}

#[test]
fn test_count_sudo_prompts() {
    assert_eq!(count_sudo_prompts("[sudo] password for user:"), 2);
    assert_eq!(count_sudo_prompts("password:"), 1);
    assert_eq!(count_sudo_prompts("[sudo]\npassword:"), 2);
    assert_eq!(count_sudo_prompts("normal command output"), 0);
}

#[test]
fn test_clean_sudo_output() {
    let password = "my_password";

    let raw_output = b"[sudo] password for admin:\n\nmy_password\nHello World\nSuccess".to_vec();
    let cleaned = clean_sudo_output(raw_output, password);
    assert_eq!(String::from_utf8_lossy(&cleaned), "Hello World\nSuccess");

    let raw_output_normal = b"Hello World\nSuccess".to_vec();
    let cleaned_normal = clean_sudo_output(raw_output_normal, password);
    assert_eq!(String::from_utf8_lossy(&cleaned_normal), "Hello World\nSuccess");

    let raw_output_empty = b"[sudo] password for admin:\nmy_password\n".to_vec();
    let cleaned_empty = clean_sudo_output(raw_output_empty, password);
    assert_eq!(String::from_utf8_lossy(&cleaned_empty), "");
}

#[test]
fn addresses_and_known_host_names() {
    assert_eq!(device_address("example.com", 2222), "example.com:2222");
    assert_eq!(known_host_name("example.com", 22), "example.com");
    assert_eq!(known_host_name("example.com", 2222), "[example.com]:2222");
}

#[test]
fn host_key_policies_decide_outcomes() {
    assert!(!host_key_check_required(HostKeyPolicy::Off));
    assert!(host_key_check_required(HostKeyPolicy::Strict));
    assert!(matches!(host_key_outcome(HostKeyPolicy::Off, HostKeyCheck::Mismatch, "h:22"), HostKeyOutcome::Accepted));
    assert!(matches!(host_key_outcome(HostKeyPolicy::AcceptNew, HostKeyCheck::NotFound, "h:22"), HostKeyOutcome::Record));
    assert!(matches!(host_key_outcome(HostKeyPolicy::Strict, HostKeyCheck::Match, "h:22"), HostKeyOutcome::Accepted));
    match host_key_outcome(HostKeyPolicy::Strict, HostKeyCheck::NotFound, "h:22") {
        HostKeyOutcome::Rejected(TelepromptError::HostKeyRejected(a, m)) => {
            assert_eq!(a, "h:22");
            assert_eq!(m, "Host not in known_hosts (policy: Strict)");
        },
        other => panic!("unexpected {:?}", other),
    }
    match host_key_outcome(HostKeyPolicy::AcceptNew, HostKeyCheck::Mismatch, "h:22") {
        HostKeyOutcome::Rejected(e) => assert_eq!(e.exit_code(), 2),
        other => panic!("unexpected {:?}", other),
    }
}

#[test]
fn authentication_falls_back_in_order() {
    let with_key = device(Some("pw"), Some("/k"));
    assert!(matches!(first_auth_step(&with_key, true), AuthStep::Try(AuthMethod::PublicKey)));
    assert!(matches!(first_auth_step(&with_key, false), AuthStep::Try(AuthMethod::Password)));
    let key_only = device(None, Some("/k"));
    match first_auth_step(&key_only, false) {
        AuthStep::Failed(TelepromptError::Other(m)) => assert_eq!(m, "SSH key file not found at: /k"),
        other => panic!("unexpected {:?}", other),
    }
    assert!(matches!(first_auth_step(&device(None, None), false), AuthStep::Failed(TelepromptError::Other(_))));

    assert!(matches!(next_auth_step(&with_key, AuthMethod::PublicKey, true, "a"), AuthStep::Authenticated));
    assert!(matches!(next_auth_step(&with_key, AuthMethod::PublicKey, false, "a"), AuthStep::Try(AuthMethod::Password)));
    assert!(matches!(next_auth_step(&with_key, AuthMethod::Password, false, "a"), AuthStep::Try(AuthMethod::KeyboardInteractive)));
    match next_auth_step(&with_key, AuthMethod::KeyboardInteractive, false, "10.0.0.1:22") {
        AuthStep::Failed(TelepromptError::AuthFailed(u, a)) => {
            assert_eq!(u, "admin");
            assert_eq!(a, "10.0.0.1:22");
        },
        other => panic!("unexpected {:?}", other),
    }
}

#[test]
fn the_connection_test_needs_exit_status_zero() {
    assert!(test_connection(Ok(0)).is_ok());
    assert_eq!(test_connection(Ok(-3)), Err(TelepromptError::Other("Test command exited with code -3".to_string())));
    assert_eq!(test_connection(Err(TelepromptError::Timeout(5))), Err(TelepromptError::Timeout(5)));
}

#[test]
fn sudo_probes_mark_capability() {
    let mut d = device(Some("pw"), None);
    assert_eq!(SudoProbe::WithoutPassword.command(), "sudo -n true");
    assert_eq!(detect_sudo_capability(&mut d, SudoProbe::WithoutPassword, 0), None);
    assert!(d.sudo_capable && !d.sudo_password_required);

    let mut d = device(Some("pw"), None);
    assert_eq!(detect_sudo_capability(&mut d, SudoProbe::WithoutPassword, 1), Some(SudoProbe::WithPassword));
    assert!(d.sudo_capable && d.sudo_password_required);
    assert_eq!(SudoProbe::WithPassword.command(), "sudo -S true");
    assert_eq!(detect_sudo_capability(&mut d, SudoProbe::WithPassword, 1), None);
    assert!(!d.sudo_capable && !d.sudo_password_required);
}

#[test]
fn sudo_commands_are_recognised_after_trimming() {
    assert!(is_sudo_command("  sudo apt update"));
    assert!(is_sudo_command("sudo"));
    assert!(!is_sudo_command("sudoedit x"));
    assert!(!is_sudo_command("echo sudo"));
}

#[test]
fn the_sudo_filter_answers_the_prompt_then_streams() {
    let password = Some("pw".to_string());
    let mut f = SudoFilter::new("sudo ls", true);
    assert_eq!(f.state, SudoState::CheckingPrompt);
    let step = f.on_stdout(b"[sudo] password for admin: ", &password).unwrap();
    assert_eq!(step.reply, Some(b"pw\n".to_vec()));
    assert_eq!(step.emit, None);
    assert_eq!(f.state, SudoState::PasswordSent);
    let step = f.on_stdout(b"\nfile_a\nfile_b", &password).unwrap();
    assert_eq!(step.emit, Some(b"file_a\nfile_b".to_vec()));
    assert_eq!(f.state, SudoState::Disabled);
    let step = f.on_stdout(b"more", &password).unwrap();
    assert_eq!(step.emit, Some(b"more".to_vec()));
}

#[test]
fn the_sudo_filter_detects_a_wrong_password() {
    let password = Some("pw".to_string());
    let mut f = SudoFilter::new("sudo ls", true);
    f.on_stdout(b"[sudo] password for admin: ", &password).unwrap();
    match f.on_stdout(b"\nSorry, try again.\n[sudo] password for admin: ", &password) {
        Err(TelepromptError::SudoFailed(m)) => assert_eq!(m, "Incorrect password"),
        other => panic!("unexpected {:?}", other),
    }
    let mut g = SudoFilter::new("sudo ls", true);
    match g.on_stdout(b"[sudo] password for admin: ", &None) {
        Err(TelepromptError::SudoFailed(m)) => assert_eq!(m, "Sudo requires a password, but none is saved"),
        other => panic!("unexpected {:?}", other),
    }
}

#[test]
fn the_sudo_filter_passes_output_without_a_prompt() {
    let mut f = SudoFilter::new("sudo ls", true);
    let step = f.on_stdout(b"partial", &None).unwrap();
    assert_eq!(step.emit, None);
    let step = f.on_stdout(b" line\nnext", &None).unwrap();
    assert_eq!(step.emit, Some(b"partial line\nnext".to_vec()));
    assert_eq!(f.state, SudoState::Disabled);

    let mut plain = SudoFilter::new("ls", true);
    assert_eq!(plain.state, SudoState::Disabled);
    assert_eq!(plain.on_stdout(b"x", &None).unwrap().emit, Some(b"x".to_vec()));
}
