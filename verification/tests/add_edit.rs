use teleprompt_cli::commands::{
    apply_edited_secrets, check_import_flags, check_new_master_password, default_port,
    edit_needs_test, input_or_default, is_key_auth, new_device_credentials,
    new_device_name_problem, parse_connection_type, parse_port_or, select_host_key_policy,
    test_and_prepare_device, NameProblem, SudoCapability,
};
use teleprompt_cli::credentials::{
    auth_label, ConnectionType, CredentialStore, Device, HostKeyPolicy, OsType,
};
use teleprompt_cli::error::TelepromptError;

fn device(conn: ConnectionType, os: OsType) -> Device {
    Device {
        name: "box".to_string(),
        host: "box.lan".to_string(),
        port: 22,
        username: "root".to_string(),
        password: Some("old".to_string()),
        key_path: Some("/k/old".to_string()),
        key_passphrase: None,
        connection_type: conn,
        sudo_capable: false,
        sudo_password_required: false,
        os_type: os,
        host_key_policy: HostKeyPolicy::AcceptNew,
    }
}

#[test]
fn answers_fall_back_to_defaults() {
    assert_eq!(input_or_default("  \n", Some("ssh")), "ssh");
    assert_eq!(input_or_default(" telnet \n", Some("ssh")), "telnet");
    assert_eq!(input_or_default("\n", None), "");
    assert_eq!(parse_connection_type(" TELNET "), ConnectionType::Telnet);
    assert_eq!(parse_connection_type("serial"), ConnectionType::Ssh);
    assert!(is_key_auth(" Key"));
    assert!(!is_key_auth("password"));
    assert_eq!(default_port(ConnectionType::Telnet), 23);
    assert_eq!(parse_port_or(" 2222 ", 22), 2222);
    assert_eq!(parse_port_or("70000", 22), 22);
    assert_eq!(parse_port_or("", 23), 23);
    assert_eq!(select_host_key_policy("", None), Some(HostKeyPolicy::AcceptNew));
    assert_eq!(select_host_key_policy("", Some(HostKeyPolicy::Off)), Some(HostKeyPolicy::Off));
    assert_eq!(select_host_key_policy("2", None), Some(HostKeyPolicy::Strict));
    assert_eq!(select_host_key_policy("4", None), None);
}

#[test]
fn new_names_must_be_given_and_free() {
    let mut store = CredentialStore::new();
    store.insert("box".to_string(), device(ConnectionType::Ssh, OsType::Linux));
    assert_eq!(new_device_name_problem(&store, "   "), Some(NameProblem::Empty));
    assert_eq!(new_device_name_problem(&store, "box"), Some(NameProblem::Taken));
    assert_eq!(new_device_name_problem(&store, "box2"), None);
}

#[test]
fn new_credentials_follow_the_auth_method() {
    let c = new_device_credentials(ConnectionType::Ssh, true, "/k".to_string(), String::new(), "pw".to_string());
    assert_eq!(c.key_path.as_deref(), Some("/k"));
    assert_eq!(c.key_passphrase, None);
    assert_eq!(c.password.as_deref(), Some("pw"));
    let c = new_device_credentials(ConnectionType::Telnet, true, "/k".to_string(), "pp".to_string(), String::new());
    assert_eq!(c.key_path, None);
    assert_eq!(c.password.as_deref(), Some(""));
}

#[test]
fn edited_secrets_report_their_changes() {
    let mut d = device(ConnectionType::Ssh, OsType::Linux);
    assert!(!apply_edited_secrets(&mut d, true, "/k/old".to_string(), String::new(), String::new()));
    assert_eq!(d.password.as_deref(), Some("old"));
    assert!(apply_edited_secrets(&mut d, true, "/k/new".to_string(), String::new(), String::new()));
    assert_eq!(d.key_path.as_deref(), Some("/k/new"));
    assert!(apply_edited_secrets(&mut d, true, "/k/new".to_string(), "pp".to_string(), String::new()));
    assert_eq!(d.key_passphrase.as_deref(), Some("pp"));

    // Switching to password authentication drops the key without counting
    // as a change; a new password does count.
    assert!(!apply_edited_secrets(&mut d, false, String::new(), String::new(), String::new()));
    assert_eq!(d.key_path, None);
    assert_eq!(d.key_passphrase, None);
    assert!(apply_edited_secrets(&mut d, false, String::new(), String::new(), "new".to_string()));
    assert_eq!(d.password.as_deref(), Some("new"));
}

#[test]
fn edits_are_tested_only_when_something_changed() {
    let before = device(ConnectionType::Ssh, OsType::Linux);
    let same = before.clone();
    assert!(!edit_needs_test(&before, &same, false));
    assert!(edit_needs_test(&before, &same, true));
    let mut moved = before.clone();
    moved.port = 2200;
    assert!(edit_needs_test(&before, &moved, false));
    let mut strict = before.clone();
    strict.host_key_policy = HostKeyPolicy::Strict;
    assert!(edit_needs_test(&before, &strict, false));
}

#[test]
fn master_passwords_must_be_given_and_confirmed() {
    match check_new_master_password("  ", "  ") {
        Err(TelepromptError::Cli(m)) => assert_eq!(m, "Master password cannot be empty"),
        other => panic!("unexpected {:?}", other),
    }
    match check_new_master_password("abc", "abd") {
        Err(TelepromptError::Cli(m)) => assert_eq!(m, "Passwords do not match"),
        other => panic!("unexpected {:?}", other),
    }
    assert_eq!(check_new_master_password("abc", "abc"), Ok(()));
}

#[test]
fn preparing_keeps_probe_findings_only_for_linux_ssh() {
    let mut d = device(ConnectionType::Ssh, OsType::Linux);
    let cap = SudoCapability { sudo_capable: true, sudo_password_required: true };
    assert_eq!(test_and_prepare_device(&mut d, Ok(()), Some(Ok(cap))), Ok(()));
    assert!(d.sudo_capable && d.sudo_password_required);

    let mut d = device(ConnectionType::Ssh, OsType::Linux);
    let failed = test_and_prepare_device(&mut d, Ok(()), Some(Err(TelepromptError::Timeout(3))));
    assert_eq!(failed, Ok(()));
    assert!(!d.sudo_capable);

    let mut d = device(ConnectionType::Ssh, OsType::Windows);
    assert_eq!(test_and_prepare_device(&mut d, Ok(()), Some(Ok(cap))), Ok(()));
    assert!(!d.sudo_capable);

    let mut d = device(ConnectionType::Ssh, OsType::Linux);
    let e = TelepromptError::ConnectionFailed("box.lan:22".to_string(), "refused".to_string());
    assert_eq!(test_and_prepare_device(&mut d, Err(e.clone()), None), Err(e));
}

#[test]
fn auth_labels_show_key_encryption() {
    let mut d = device(ConnectionType::Ssh, OsType::Linux);
    assert_eq!(auth_label(&d), "key");
    d.key_passphrase = Some("pp".to_string());
    assert_eq!(auth_label(&d), "key (encrypted)");
    d.key_path = None;
    assert_eq!(auth_label(&d), "password");
}

#[test]
fn yes_needs_all() {
    match check_import_flags(false, true) {
        Err(TelepromptError::Cli(m)) => assert_eq!(m, "--yes can only be used together with --all"),
        other => panic!("unexpected {:?}", other),
    }
    assert_eq!(check_import_flags(true, true), Ok(()));
    assert_eq!(check_import_flags(false, false), Ok(()));
}
