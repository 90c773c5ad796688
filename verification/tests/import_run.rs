use teleprompt_cli::commands::ImportSession;
use teleprompt_cli::credentials::{ConnectionType, CredentialStore, Device, HostKeyPolicy, OsType};
use teleprompt_cli::error::TelepromptError;
use teleprompt_cli::import::{ImportAction, ImportRun, SkipReason};
use teleprompt_cli::ssh_config::SshImportCandidate;

const HOME: &str = "/home/alice";

fn candidate(name: &str, user: Option<&str>, identity: Option<&str>, trusted: bool) -> SshImportCandidate {
    SshImportCandidate {
        name: name.to_string(),
        host: format!("{name}.example.com"),
        port: 22,
        username: user.map(|u| u.to_string()),
        identity_file: identity.map(|i| i.to_string()),
        known_host_lines: if trusted { vec![format!("{name}.example.com ssh-ed25519 AAAA")] } else { Vec::new() },
    }
}

fn existing_store() -> CredentialStore {
    let mut store = CredentialStore::new();
    store.insert(
        "web".to_string(),
        Device {
            name: "web".to_string(),
            host: "web.example.com".to_string(),
            port: 22,
            username: "ops".to_string(),
            password: Some("pw".to_string()),
            key_path: None,
            key_passphrase: None,
            connection_type: ConnectionType::Ssh,
            sudo_capable: false,
            sudo_password_required: false,
            os_type: OsType::Linux,
            host_key_policy: HostKeyPolicy::AcceptNew,
        },
    );
    store
}

fn run(candidates: Vec<SshImportCandidate>, all: bool, yes: bool) -> ImportRun {
    ImportRun::new(ImportSession::new(existing_store()), candidates, HOME.to_string(), all, yes).unwrap()
}

#[test]
fn yes_without_all_is_refused() {
    match ImportRun::new(ImportSession::new(CredentialStore::new()), Vec::new(), HOME.to_string(), false, true) {
        Err(TelepromptError::Cli(m)) => assert_eq!(m, "--yes can only be used together with --all"),
        _ => panic!("expected a usage error"),
    }
}

#[test]
fn unattended_import_takes_trusted_candidates_and_skips_the_rest() {
    let mut r = run(
        vec![
            candidate("web", Some("ops"), Some("/k"), true),
            candidate("db", Some("dba"), Some("/k/db"), false),
            candidate("cache", None, Some("/k"), true),
            candidate("api", Some("deploy"), Some("/k/api"), true),
        ],
        true,
        true,
    );
    assert!(matches!(r.next(), ImportAction::Skipped { index: 0, reason: SkipReason::Conflict }));
    assert!(matches!(r.next(), ImportAction::Announce { index: 1 }));
    assert!(matches!(r.next(), ImportAction::Skipped { index: 1, reason: SkipReason::Untrusted }));
    assert!(matches!(r.next(), ImportAction::Announce { index: 2 }));
    assert!(matches!(r.next(), ImportAction::Continue));
    assert!(matches!(r.next(), ImportAction::Skipped { index: 2, reason: SkipReason::Incomplete }));
    assert!(matches!(r.next(), ImportAction::Announce { index: 3 }));
    assert!(matches!(r.next(), ImportAction::Continue));
    assert!(matches!(r.next(), ImportAction::Continue));
    match r.next() {
        ImportAction::UsingKey { path } => assert_eq!(path, "/k/api"),
        other => panic!("unexpected {:?}", other),
    }
    assert!(matches!(r.next(), ImportAction::Continue));
    assert!(matches!(r.next(), ImportAction::Continue));
    let device = match r.next() {
        ImportAction::Test { device, known_host_lines } => {
            assert_eq!(known_host_lines, vec!["api.example.com ssh-ed25519 AAAA".to_string()]);
            device
        }
        other => panic!("unexpected {:?}", other),
    };
    assert_eq!(device.username, "deploy");
    assert_eq!(device.key_path.as_deref(), Some("/k/api"));
    assert_eq!(device.password, None);
    assert_eq!(device.os_type, OsType::Generic);
    assert_eq!(device.host_key_policy, HostKeyPolicy::Strict);
    assert!(matches!(r.on_tested(device, true), ImportAction::Imported { index: 3 }));
    match r.next() {
        ImportAction::Finished { summary, save } => {
            assert!(save);
            assert_eq!(summary.detected, 4);
            assert_eq!(summary.imported, 1);
            assert_eq!(summary.conflicts, 1);
            assert_eq!(summary.incomplete, 2);
            assert_eq!(summary.declined, 0);
            assert_eq!(summary.test_failed, 0);
        }
        other => panic!("unexpected {:?}", other),
    }
    let store = r.into_store();
    assert_eq!(store.len(), 2);
    assert_eq!(store.get("api").unwrap().username, "deploy");
}

#[test]
fn attended_import_asks_for_what_is_missing() {
    let mut r = run(vec![candidate("box", None, None, false), candidate("nas", Some("n"), None, false)], false, false);
    assert!(matches!(r.next(), ImportAction::Announce { index: 0 }));
    assert!(matches!(r.next(), ImportAction::Confirm));
    assert!(matches!(r.on_confirm(true), ImportAction::Continue));
    assert!(matches!(r.next(), ImportAction::AskUsername));
    assert!(matches!(r.on_username("root".to_string()), ImportAction::Continue));
    match r.next() {
        ImportAction::FindIdentity { paths } => {
            let ssh = std::path::Path::new(HOME).join(".ssh");
            assert_eq!(paths[0], ssh.join("id_ed25519").to_string_lossy());
            assert_eq!(paths[2], ssh.join("id_rsa").to_string_lossy());
        }
        other => panic!("unexpected {:?}", other),
    }
    assert!(matches!(r.on_identity_files(&vec![false, false, false]), ImportAction::AskKeyPath));
    assert!(matches!(r.on_key_path("~/.ssh/box".to_string()), ImportAction::AskPassphrase));
    assert!(matches!(r.on_passphrase(Some("pp".to_string())), ImportAction::AskPassword { fallback: true }));
    assert!(matches!(r.on_password(None), ImportAction::Continue));
    assert!(matches!(r.next(), ImportAction::AskOsType));
    assert!(matches!(r.on_os_type(OsType::Linux), ImportAction::Continue));
    let device = match r.next() {
        ImportAction::Test { device, .. } => device,
        other => panic!("unexpected {:?}", other),
    };
    assert_eq!(device.username, "root");
    let expected_key = std::path::Path::new(HOME).join(".ssh/box").to_string_lossy().into_owned();
    assert_eq!(device.key_path.as_deref(), Some(expected_key.as_str()));
    assert_eq!(device.key_passphrase.as_deref(), Some("pp"));
    assert_eq!(device.os_type, OsType::Linux);
    assert_eq!(device.host_key_policy, HostKeyPolicy::AcceptNew);
    assert!(matches!(r.on_tested(device, false), ImportAction::AskSaveAnyway));
    assert!(matches!(r.on_save_anyway(true), ImportAction::Imported { index: 0 }));

    // The second candidate: the user declines it.
    assert!(matches!(r.next(), ImportAction::Announce { index: 1 }));
    assert!(matches!(r.next(), ImportAction::Confirm));
    assert!(matches!(r.on_confirm(false), ImportAction::Skipped { index: 1, reason: SkipReason::Declined }));
    match r.next() {
        ImportAction::Finished { summary, save } => {
            assert!(save);
            assert_eq!(summary.imported, 1);
            assert_eq!(summary.test_failed, 1);
            assert_eq!(summary.declined, 1);
        }
        other => panic!("unexpected {:?}", other),
    }
}

#[test]
fn a_default_identity_is_used_and_a_password_alone_may_be_missing() {
    let mut r = run(vec![candidate("a", Some("u"), None, false), candidate("b", Some("u"), None, false)], true, false);
    assert!(matches!(r.next(), ImportAction::Announce { index: 0 }));
    assert!(matches!(r.next(), ImportAction::Continue));
    assert!(matches!(r.next(), ImportAction::Continue));
    assert!(matches!(r.next(), ImportAction::FindIdentity { .. }));
    match r.on_identity_files(&vec![false, true, true]) {
        ImportAction::UsingKey { path } => {
            assert_eq!(path, std::path::Path::new(HOME).join(".ssh").join("id_ecdsa").to_string_lossy())
        }
        other => panic!("unexpected {:?}", other),
    }
    assert!(matches!(r.next(), ImportAction::AskPassphrase));
    assert!(matches!(r.on_passphrase(None), ImportAction::AskPassword { fallback: true }));
    assert!(matches!(r.on_password(Some("sudo".to_string())), ImportAction::Continue));
    assert!(matches!(r.next(), ImportAction::AskOsType));
    assert!(matches!(r.on_os_type(OsType::Generic), ImportAction::Continue));
    let device = match r.next() {
        ImportAction::Test { device, .. } => device,
        other => panic!("unexpected {:?}", other),
    };
    assert_eq!(device.password.as_deref(), Some("sudo"));
    assert!(matches!(r.on_tested(device, false), ImportAction::AskSaveAnyway));
    assert!(matches!(r.on_save_anyway(false), ImportAction::Skipped { index: 0, reason: SkipReason::TestFailed }));

    assert!(matches!(r.next(), ImportAction::Announce { index: 1 }));
    assert!(matches!(r.next(), ImportAction::Continue));
    assert!(matches!(r.next(), ImportAction::Continue));
    assert!(matches!(r.next(), ImportAction::FindIdentity { .. }));
    assert!(matches!(r.on_identity_files(&vec![false, false, false]), ImportAction::AskKeyPath));
    assert!(matches!(r.on_key_path(String::new()), ImportAction::AskPassword { fallback: false }));
    assert!(matches!(r.on_password(None), ImportAction::Skipped { index: 1, reason: SkipReason::Incomplete }));
    match r.next() {
        ImportAction::Finished { summary, save } => {
            assert!(!save);
            assert_eq!(summary.imported, 0);
            assert_eq!(summary.test_failed, 1);
            assert_eq!(summary.incomplete, 1);
        }
        other => panic!("unexpected {:?}", other),
    }
}

#[test]
fn each_candidate_starts_without_the_previous_key() {
    let mut r = run(vec![candidate("a", Some("u"), Some("/k/a"), false), candidate("b", Some("u"), None, false)], true, false);
    assert!(matches!(r.next(), ImportAction::Announce { index: 0 }));
    assert!(matches!(r.next(), ImportAction::Continue));
    assert!(matches!(r.next(), ImportAction::Continue));
    assert!(matches!(r.next(), ImportAction::UsingKey { .. }));
    assert!(matches!(r.next(), ImportAction::AskPassphrase));
    assert!(matches!(r.on_passphrase(Some("pp".to_string())), ImportAction::AskPassword { fallback: true }));
    assert!(matches!(r.on_password(Some("sudo".to_string())), ImportAction::Continue));
    assert!(matches!(r.next(), ImportAction::AskOsType));
    assert!(matches!(r.on_os_type(OsType::Linux), ImportAction::Continue));
    let device = match r.next() {
        ImportAction::Test { device, .. } => device,
        other => panic!("unexpected {:?}", other),
    };
    assert_eq!(device.key_path.as_deref(), Some("/k/a"));
    assert!(matches!(r.on_tested(device, true), ImportAction::Imported { index: 0 }));

    assert!(matches!(r.next(), ImportAction::Announce { index: 1 }));
    assert!(matches!(r.next(), ImportAction::Continue));
    assert!(matches!(r.next(), ImportAction::Continue));
    assert!(matches!(r.next(), ImportAction::FindIdentity { .. }));
    assert!(matches!(r.on_identity_files(&vec![false, false, false]), ImportAction::AskKeyPath));
    assert!(matches!(r.on_key_path(String::new()), ImportAction::AskPassword { fallback: false }));
    assert!(matches!(r.on_password(Some("pw".to_string())), ImportAction::Continue));
    assert!(matches!(r.next(), ImportAction::AskOsType));
    assert!(matches!(r.on_os_type(OsType::Generic), ImportAction::Continue));
    let device = match r.next() {
        ImportAction::Test { device, .. } => device,
        other => panic!("unexpected {:?}", other),
    };
    assert_eq!(device.key_path, None);
    assert_eq!(device.key_passphrase, None);
    assert_eq!(device.password.as_deref(), Some("pw"));
}
