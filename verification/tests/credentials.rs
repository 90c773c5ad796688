use teleprompt_cli::credentials::{
    check_connection_type, should_detect_sudo, ConnectionType, CredentialStore, Device, HostKeyPolicy, OsType,
};
use teleprompt_cli::error::TelepromptError;

fn make_device(name: &str, conn: ConnectionType) -> Device {
    Device {
        name: name.to_string(),
        host: "127.0.0.1".to_string(),
        port: if conn == ConnectionType::Telnet { 23 } else { 22 },
        username: "admin".to_string(),
        password: Some("test123".to_string()),
        key_path: None,
        key_passphrase: None,
        connection_type: conn,
        sudo_capable: false,
        sudo_password_required: false,
        os_type: OsType::Linux,
        host_key_policy: HostKeyPolicy::AcceptNew,
    }
}

#[test]
fn test_should_detect_sudo_only_for_ssh_linux() {
    assert!(should_detect_sudo(&ConnectionType::Ssh, OsType::Linux));
    assert!(!should_detect_sudo(&ConnectionType::Telnet, OsType::Linux));

    for os_type in [
        OsType::Windows,
        OsType::RouterOs,
        OsType::CiscoIos,
        OsType::JunOs,
        OsType::Generic,
    ] {
        assert!(!should_detect_sudo(&ConnectionType::Ssh, os_type));
    }
}

#[test]
fn test_store_crud_operations() {
    let mut store = CredentialStore::new();
    assert!(store.is_empty());

    let dev1 = make_device("test_srv", ConnectionType::Ssh);
    store.insert(dev1.name.clone(), dev1);

    assert_eq!(store.len(), 1);
    let loaded_dev = store.get("test_srv").unwrap();
    assert_eq!(loaded_dev.host, "127.0.0.1");
    assert_eq!(loaded_dev.password.as_deref(), Some("test123"));
    assert_eq!(loaded_dev.os_type, OsType::Linux);
    assert_eq!(loaded_dev.key_passphrase, None);
    assert_eq!(loaded_dev.host_key_policy, HostKeyPolicy::AcceptNew);

    let removed = store.remove("test_srv").unwrap();
    assert_eq!(removed.name, "test_srv");
    assert!(store.get("test_srv").is_none());
    assert!(store.is_empty());
}

#[test]
fn test_store_multiple_devices_and_types() {
    let mut store = CredentialStore::new();

    let mut ssh_dev = make_device("ssh_device", ConnectionType::Ssh);
    ssh_dev.key_path = Some("/path/to/key".to_string());
    ssh_dev.key_passphrase = Some("key_pass".to_string());
    ssh_dev.sudo_capable = true;
    ssh_dev.sudo_password_required = true;

    let telnet_dev = make_device("telnet_device", ConnectionType::Telnet);

    store.insert(ssh_dev.name.clone(), ssh_dev);
    store.insert(telnet_dev.name.clone(), telnet_dev.clone());
    assert_eq!(store.len(), 2);

    let loaded_ssh = store.get("ssh_device").expect("Missing ssh device");
    assert_eq!(loaded_ssh.connection_type, ConnectionType::Ssh);
    assert_eq!(loaded_ssh.key_path.as_deref(), Some("/path/to/key"));
    assert_eq!(loaded_ssh.key_passphrase.as_deref(), Some("key_pass"));
    assert!(loaded_ssh.sudo_capable);
    assert_eq!(loaded_ssh.os_type, OsType::Linux);

    let loaded_telnet = store.get("telnet_device").expect("Missing telnet device");
    assert_eq!(loaded_telnet.connection_type, ConnectionType::Telnet);
    assert_eq!(loaded_telnet.key_path, None);
    assert_eq!(loaded_telnet.key_passphrase, None);
    assert!(!loaded_telnet.sudo_capable);
    assert_eq!(loaded_telnet.host_key_policy, HostKeyPolicy::AcceptNew);
}

#[test]
fn storing_under_a_taken_name_replaces_only_that_device() {
    let mut store = CredentialStore::new();
    store.insert("a".to_string(), make_device("a", ConnectionType::Ssh));
    store.insert("b".to_string(), make_device("b", ConnectionType::Telnet));
    let mut replacement = make_device("a", ConnectionType::Ssh);
    replacement.host = "10.0.0.9".to_string();
    store.insert("a".to_string(), replacement);

    assert_eq!(store.len(), 2);
    assert_eq!(store.get("a").unwrap().host, "10.0.0.9");
    assert_eq!(store.get("b").unwrap().port, 23);
    assert!(store.remove("missing").is_none());
    assert_eq!(store.len(), 2);
    assert!(store.contains_key("b"));
    assert!(!store.contains_key("B"));
}

#[test]
fn os_types_have_display_names_and_menu_digits() {
    assert_eq!(OsType::RouterOs.display_name(), "RouterOS (MikroTik)");
    assert_eq!(OsType::Generic.display_name(), "Generic/Other");
    assert_eq!(OsType::select_from_menu(" 4 ", None), Some(OsType::CiscoIos));
    assert_eq!(OsType::select_from_menu("", Some(OsType::Windows)), Some(OsType::Windows));
    assert_eq!(OsType::select_from_menu("", None), Some(OsType::Generic));
    assert_eq!(OsType::select_from_menu("7", None), None);
    assert_eq!(OsType::from_name("Cisco"), Some(OsType::CiscoIos));
    assert_eq!(OsType::from_name(""), Some(OsType::Generic));
    assert_eq!(OsType::from_name("beos"), None);
}

#[test]
fn defaults_are_accept_new_and_generic() {
    assert_eq!(HostKeyPolicy::default(), HostKeyPolicy::AcceptNew);
    assert_eq!(OsType::default(), OsType::Generic);
}

#[test]
fn a_rejected_host_key_exits_with_two() {
    assert_eq!(TelepromptError::HostKeyRejected("h:22".to_string(), "x".to_string()).exit_code(), 2);
    assert_eq!(TelepromptError::NotInitialized.exit_code(), 1);
    assert_eq!(TelepromptError::Timeout(30).exit_code(), 1);
}

#[test]
fn a_device_is_used_only_over_its_own_protocol() {
    let ssh = make_device("a", ConnectionType::Ssh);
    let telnet = make_device("b", ConnectionType::Telnet);
    assert_eq!(check_connection_type(&ssh, ConnectionType::Ssh), Ok(()));
    assert_eq!(check_connection_type(&telnet, ConnectionType::Telnet), Ok(()));
    assert_eq!(
        check_connection_type(&telnet, ConnectionType::Ssh),
        Err(TelepromptError::Other("Device is not configured for SSH".to_string()))
    );
    assert_eq!(
        check_connection_type(&ssh, ConnectionType::Telnet),
        Err(TelepromptError::Other("Device is not configured for Telnet".to_string()))
    );
}

#[test]
fn inserting_then_removing_a_new_name_restores_the_store() {
    let mut store = CredentialStore::new();
    store.insert("a".to_string(), make_device("a", ConnectionType::Ssh));
    store.insert("b".to_string(), make_device("b", ConnectionType::Telnet));
    assert_eq!(store.len(), 2);
    assert_eq!(store.get("b").unwrap().connection_type, ConnectionType::Telnet);
    assert!(store.remove("b").is_some());
    assert_eq!(store.len(), 1);
    assert!(store.get("b").is_none());
    assert_eq!(store.get("a").unwrap().name, "a");
}
