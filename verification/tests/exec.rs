use teleprompt_cli::commands::{command_for_device, join_command, plan_external, ExternalPlan};
use teleprompt_cli::credentials::{ConnectionType, CredentialStore, Device, HostKeyPolicy, OsType};
use teleprompt_cli::error::TelepromptError;

fn store() -> CredentialStore {
    let mut s = CredentialStore::new();
    s.insert(
        "web".to_string(),
        Device {
            name: "web".to_string(),
            host: "10.0.0.2".to_string(),
            port: 22,
            username: "ops".to_string(),
            password: None,
            key_path: Some("/k".to_string()),
            key_passphrase: None,
            connection_type: ConnectionType::Ssh,
            sudo_capable: false,
            sudo_password_required: false,
            os_type: OsType::Linux,
            host_key_policy: HostKeyPolicy::Strict,
        },
    );
    s
}

#[test]
fn words_after_the_program_name_name_a_device_and_a_command() {
    assert!(matches!(plan_external(&vec![]), Ok(ExternalPlan::NothingGiven)));
    match plan_external(&vec!["web".to_string()]) {
        Err(TelepromptError::Cli(m)) => assert_eq!(
            m,
            "No remote command provided for device 'web'. Usage: teleprompt web <command>..."
        ),
        other => panic!("unexpected {:?}", other),
    }
    match plan_external(&vec!["web".to_string(), "uname".to_string(), "-a".to_string()]) {
        Ok(ExternalPlan::Run { device, command_args }) => {
            assert_eq!(device, "web");
            assert_eq!(command_args, vec!["uname".to_string(), "-a".to_string()]);
        },
        other => panic!("unexpected {:?}", other),
    }
}

#[test]
fn command_words_are_joined_by_spaces() {
    assert_eq!(join_command(&["ls".to_string(), "-l".to_string(), "/var log".to_string()]), "ls -l /var log");
    assert_eq!(join_command(&["df -h".to_string()]), "df -h");
    assert_eq!(join_command(&[]), "");
}

#[test]
fn a_command_needs_a_registered_device_and_words() {
    let s = store();
    match command_for_device(&s, "db", &["ls".to_string()]) {
        Err(TelepromptError::DeviceNotFound(n)) => assert_eq!(n, "db"),
        other => panic!("unexpected {:?}", other),
    }
    match command_for_device(&s, "web", &[]) {
        Err(TelepromptError::Cli(m)) => assert_eq!(m, "No remote command provided"),
        other => panic!("unexpected {:?}", other),
    }
    match command_for_device(&s, "web", &["cat".to_string(), "/etc/os-release".to_string()]) {
        Ok((d, c)) => {
            assert_eq!(d.host, "10.0.0.2");
            assert_eq!(c, "cat /etc/os-release");
        },
        other => panic!("unexpected {:?}", other),
    }
}
