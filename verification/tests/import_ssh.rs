use teleprompt_cli::commands::{
    can_import_unattended, expand_user_path, import_device, import_key_source, import_username,
    is_reserved_name, merge_known_host_lines, tally, CandidateOutcome, ImportSession, KeySource,
    UsernameSource,
};
use teleprompt_cli::credentials::{
    ConnectionType, CredentialStore, Device, HostKeyPolicy, OsType,
};
use teleprompt_cli::ssh_config::SshImportCandidate;

fn candidate(name: &str, host: &str, port: u16) -> SshImportCandidate {
    SshImportCandidate {
        name: name.to_string(),
        host: host.to_string(),
        port,
        username: Some("deploy".to_string()),
        identity_file: Some("/tmp/key".to_string()),
        known_host_lines: Vec::new(),
    }
}

fn device(name: &str, host: &str, port: u16) -> Device {
    Device {
        name: name.to_string(),
        host: host.to_string(),
        port,
        username: "admin".to_string(),
        password: Some("secret".to_string()),
        key_path: None,
        key_passphrase: None,
        connection_type: ConnectionType::Ssh,
        sudo_capable: false,
        sudo_password_required: false,
        os_type: OsType::Linux,
        host_key_policy: HostKeyPolicy::AcceptNew,
    }
}

#[test]
fn reserved_names_are_case_insensitive() {
    assert!(is_reserved_name("import"));
    assert!(is_reserved_name("Generate-Key"));
    assert!(!is_reserved_name("production"));
}

#[test]
fn unattended_import_requires_existing_host_trust() {
    let mut candidate = SshImportCandidate {
        name: "prod".to_string(),
        host: "prod.example.com".to_string(),
        port: 22,
        username: Some("deploy".to_string()),
        identity_file: Some("/tmp/key".to_string()),
        known_host_lines: Vec::new(),
    };
    assert!(!can_import_unattended(&candidate));

    candidate
        .known_host_lines
        .push("prod.example.com ssh-ed25519 AAAA".to_string());
    assert!(can_import_unattended(&candidate));
}

#[test]
fn merges_known_hosts_without_duplicates() {
    let existing = "existing ssh-ed25519 AAAA\n";
    let merge = merge_known_host_lines(
        existing,
        &vec![
            "existing ssh-ed25519 AAAA".to_string(),
            "new ssh-ed25519 BBBB".to_string(),
        ],
    );
    let mut content = existing.to_string();
    if merge.needs_leading_newline {
        content.push('\n');
    }
    for line in &merge.new_lines {
        content.push_str(line);
        content.push('\n');
    }
    assert_eq!(content.matches("existing ssh-ed25519 AAAA").count(), 1);
    assert_eq!(content.matches("new ssh-ed25519 BBBB").count(), 1);
}

#[test]
fn merge_adds_each_new_line_once_and_ends_the_file_first() {
    let merge = merge_known_host_lines(
        "a ssh-ed25519 A",
        &vec!["b ssh-ed25519 B".to_string(), "b ssh-ed25519 B".to_string(), "a ssh-ed25519 A".to_string()],
    );
    assert_eq!(merge.new_lines, vec!["b ssh-ed25519 B".to_string()]);
    assert!(merge.needs_leading_newline);

    let empty = merge_known_host_lines("", &vec!["c ssh-rsa C".to_string()]);
    assert_eq!(empty.new_lines, vec!["c ssh-rsa C".to_string()]);
    assert!(!empty.needs_leading_newline);
}

#[test]
fn import_session_refuses_taken_names_and_endpoints() {
    let mut store = CredentialStore::new();
    store.insert("web".to_string(), device("web", "Web.Example.com", 22));
    let mut session = ImportSession::new(store);

    assert!(session.conflicts(&candidate("web", "other.example.com", 22)));
    assert!(session.conflicts(&candidate("web2", "web.example.COM", 22)));
    assert!(!session.conflicts(&candidate("web2", "web.example.com", 2222)));
    assert!(session.conflicts(&candidate("List", "free.example.com", 22)));

    session.accept(device("db", "db.example.com", 5432));
    assert!(session.conflicts(&candidate("db", "x.example.com", 22)));
    assert!(session.conflicts(&candidate("db-copy", "DB.example.com", 5432)));

    let store = session.into_store();
    assert_eq!(store.len(), 2);
    assert_eq!(store.get("db").unwrap().port, 5432);
}

#[test]
fn tally_counts_each_outcome() {
    let outcomes = vec![
        CandidateOutcome::Imported,
        CandidateOutcome::Conflict,
        CandidateOutcome::Declined,
        CandidateOutcome::Incomplete,
        CandidateOutcome::TestFailed,
        CandidateOutcome::ImportedAfterFailedTest,
        CandidateOutcome::Conflict,
    ];
    let s = tally(9, &outcomes);
    assert_eq!(s.detected, 9);
    assert_eq!(s.imported, 2);
    assert_eq!(s.conflicts, 2);
    assert_eq!(s.declined, 1);
    assert_eq!(s.incomplete, 1);
    assert_eq!(s.test_failed, 2);
}

#[test]
fn username_comes_from_config_or_prompt() {
    let c = candidate("prod", "prod.example.com", 22);
    assert!(matches!(import_username(&c, true), UsernameSource::Known(u) if u == "deploy"));

    let mut blank = candidate("prod", "prod.example.com", 22);
    blank.username = Some("   ".to_string());
    assert!(matches!(import_username(&blank, true), UsernameSource::Skip));
    assert!(matches!(import_username(&blank, false), UsernameSource::Ask));
}

#[test]
fn key_comes_from_config_then_default_identity() {
    let cfg = Some("/keys/a".to_string());
    let def = Some("/home/u/.ssh/id_ed25519".to_string());
    assert!(matches!(import_key_source(&cfg, &def, false), KeySource::Use { path, ask_secrets: true } if path == "/keys/a"));
    assert!(matches!(import_key_source(&None, &def, true), KeySource::Use { path, ask_secrets: false } if path == "/home/u/.ssh/id_ed25519"));
    assert!(matches!(import_key_source(&None, &None, true), KeySource::Skip));
    assert!(matches!(import_key_source(&None, &None, false), KeySource::Ask));
}

#[test]
fn typed_paths_expand_the_home_directory() {
    assert_eq!(expand_user_path("~", "/home/u"), "/home/u");
    assert_eq!(
        expand_user_path("~/.ssh/k", "/home/u"),
        std::path::Path::new("/home/u").join(".ssh/k").to_string_lossy()
    );
    assert_eq!(expand_user_path("/etc/k", "/home/u"), "/etc/k");
    assert_eq!(expand_user_path("~bob/k", "/home/u"), "~bob/k");
}

#[test]
fn unattended_imports_are_strict_and_generic() {
    let c = candidate("prod", "prod.example.com", 2222);
    let d = import_device(&c, "deploy".to_string(), Some("/k".to_string()), None, None, OsType::Linux, true);
    assert_eq!(d.name, "prod");
    assert_eq!(d.port, 2222);
    assert_eq!(d.os_type, OsType::Generic);
    assert_eq!(d.host_key_policy, HostKeyPolicy::Strict);
    assert_eq!(d.connection_type, ConnectionType::Ssh);

    let d = import_device(&c, "deploy".to_string(), None, Some("pw".to_string()), None, OsType::Linux, false);
    assert_eq!(d.os_type, OsType::Linux);
    assert_eq!(d.host_key_policy, HostKeyPolicy::AcceptNew);
    assert_eq!(d.password.as_deref(), Some("pw"));
}
