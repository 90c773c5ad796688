use teleprompt_cli::ssh_config::{
    default_identity_paths, discover_ssh_hosts, enrich_from_known_hosts, first_default_identity,
    parse_ssh_config, parse_words,
};

const HOME: &str = "/home/alice";

fn joined(base: &str, part: &str) -> String {
    std::path::Path::new(base).join(part).to_string_lossy().into_owned()
}

#[test]
fn parses_supported_fields_and_skips_wildcards() {
    let config = r#"
            Host production prod
                HostName = server.example.com
                User "deploy"
                Port 2222
                IdentityFile ~/.ssh/prod_key # trailing comment

            Host *.internal !blocked
                User ignored
        "#;

    let report = parse_ssh_config(config, HOME);
    assert_eq!(report.candidates.len(), 2);
    assert_eq!(report.skipped_wildcards, 2);
    assert_eq!(report.candidates[0].name, "production");
    assert_eq!(report.candidates[0].host, "server.example.com");
    assert_eq!(report.candidates[0].port, 2222);
    assert_eq!(report.candidates[0].username.as_deref(), Some("deploy"));
    assert_eq!(
        report.candidates[0].identity_file.as_deref(),
        Some(joined(HOME, ".ssh/prod_key").as_str())
    );
}

#[test]
fn known_hosts_only_enriches_matching_config_candidates() {
    let config = "Host prod\n HostName prod.example.com\n Port 2222\n";
    let mut report = parse_ssh_config(config, HOME);
    enrich_from_known_hosts(
        &mut report,
        "[prod.example.com]:2222 ssh-ed25519 AAAA\nstandalone ssh-rsa BBBB\n|1|salt|hash ssh-ed25519 CCCC\nbroken\n",
    );

    assert_eq!(report.candidates[0].known_host_lines.len(), 1);
    assert_eq!(report.skipped_standalone_hosts, 1);
    assert_eq!(report.skipped_hashed_hosts, 1);
    assert_eq!(report.malformed_known_hosts, 1);
}

#[test]
fn default_identity_uses_expected_precedence() {
    let ssh_dir = joined(HOME, ".ssh");
    // id_ed25519 and id_rsa exist, id_ecdsa does not.
    assert_eq!(
        first_default_identity(HOME, &vec![true, false, true]),
        Some(joined(&ssh_dir, "id_ed25519"))
    );
    assert_eq!(
        first_default_identity(HOME, &vec![false, false, true]),
        Some(joined(&ssh_dir, "id_rsa"))
    );
    assert_eq!(first_default_identity(HOME, &vec![false, false, false]), None);
    assert_eq!(
        default_identity_paths(HOME),
        vec![joined(&ssh_dir, "id_ed25519"), joined(&ssh_dir, "id_ecdsa"), joined(&ssh_dir, "id_rsa")]
    );
}

#[test]
fn preserves_windows_identity_file_backslashes() {
    assert_eq!(
        parse_words(r#"C:\Users\alice\.ssh\id_ed25519"#),
        vec![r#"C:\Users\alice\.ssh\id_ed25519"#]
    );
    assert_eq!(
        parse_words(r#""C:\Users\Alice Smith\.ssh\id_ed25519""#),
        vec![r#"C:\Users\Alice Smith\.ssh\id_ed25519"#]
    );
    assert_eq!(
        parse_words(r#"\\server\share\id_ed25519"#),
        vec![r#"\\server\share\id_ed25519"#]
    );
}

#[test]
fn discovery_tolerates_missing_files() {
    let report = discover_ssh_hosts(HOME, "", "");
    assert!(report.candidates.is_empty());
}

#[test]
fn candidates_are_literal_aliases_with_defaults() {
    let report = parse_ssh_config("Host web db?\nHost *\n  User root\nHost bare\n", HOME);
    let names: Vec<&str> = report.candidates.iter().map(|c| c.name.as_str()).collect();
    assert_eq!(names, vec!["web", "bare"]);
    assert_eq!(report.skipped_wildcards, 2);
    assert_eq!(report.candidates[1].host, "bare");
    assert_eq!(report.candidates[1].port, 22);
    assert_eq!(report.candidates[1].username, None);
}

#[test]
fn the_first_value_of_a_field_wins_and_match_closes_a_block() {
    let report = parse_ssh_config(
        "Host a\n HostName first\n HostName second\n Port x\nMatch all\n User ignored\nHost b\n",
        HOME,
    );
    assert_eq!(report.candidates.len(), 2);
    assert_eq!(report.candidates[0].host, "first");
    assert_eq!(report.candidates[0].port, 22);
    assert_eq!(report.candidates[1].username, None);
}

#[test]
fn known_hosts_lines_match_alias_or_host_case_insensitively() {
    let config = "Host Prod\n HostName 10.0.0.5\n";
    let mut report = parse_ssh_config(config, HOME);
    enrich_from_known_hosts(
        &mut report,
        "# comment\nprod,10.0.0.5 ssh-ed25519 AAAA\n@cert-authority PROD ssh-rsa BBBB\nprod,10.0.0.5 ssh-ed25519 AAAA\n[prod]:2222 ssh-ed25519 DDDD\n",
    );
    let lines = &report.candidates[0].known_host_lines;
    assert_eq!(
        lines,
        &vec![
            "prod,10.0.0.5 ssh-ed25519 AAAA".to_string(),
            "@cert-authority PROD ssh-rsa BBBB".to_string(),
        ]
    );
    assert_eq!(report.skipped_standalone_hosts, 1);
}

#[test]
fn relative_identity_files_are_read_inside_the_ssh_directory() {
    let report = parse_ssh_config("Host a\n IdentityFile keys/id_a\nHost b\n IdentityFile /etc/id_b\n", HOME);
    assert_eq!(
        report.candidates[0].identity_file.as_deref(),
        Some(joined(&joined(HOME, ".ssh"), "keys/id_a").as_str())
    );
    assert_eq!(report.candidates[1].identity_file.as_deref(), Some("/etc/id_b"));
}

#[test]
fn reading_known_hosts_keeps_every_candidate_entry() {
    let config = "Host a b\n HostName h.example.com\n User u\n Port 2200\n";
    let before = parse_ssh_config(config, HOME);
    let mut after = parse_ssh_config(config, HOME);
    enrich_from_known_hosts(&mut after, "[h.example.com]:2200 ssh-ed25519 AAAA\nbad\n,, x y\n");
    assert_eq!(after.candidates.len(), before.candidates.len());
    for (a, b) in after.candidates.iter().zip(before.candidates.iter()) {
        assert_eq!(a.name, b.name);
        assert_eq!(a.host, b.host);
        assert_eq!(a.port, b.port);
        assert_eq!(a.username, b.username);
        assert_eq!(a.identity_file, b.identity_file);
        assert_eq!(a.known_host_lines, vec!["[h.example.com]:2200 ssh-ed25519 AAAA".to_string()]);
    }
    // "bad" has too few fields; ",," lists three empty hosts.
    assert_eq!(after.malformed_known_hosts, 4);
    assert_eq!(after.skipped_standalone_hosts, 1);
}
