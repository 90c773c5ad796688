use teleprompt_cli::ssh::{clean_sudo_output, contains_sudo_prompt, count_sudo_prompts};
use teleprompt_cli::ssh_config::{
    enrich_from_known_hosts, parse_ssh_config, parse_words, split_directive, strip_comment,
    DiscoveryReport, SshImportCandidate,
};
use teleprompt_cli::telnet::{clean_newlines, handle_telnet_options};

fn chars(s: &str) -> Vec<char> {
    s.chars().collect()
}

#[test]
fn a_positive_prompt_count_is_prompt_detection() {
    for out in ["[sudo] password for bob:", "Password:", "hello\nworld", "", "passwd"] {
        assert_eq!(count_sudo_prompts(out) > 0, contains_sudo_prompt(out), "{out}");
    }
    assert_eq!(count_sudo_prompts("[sudo] password for bob:"), 2);
}

#[test]
fn newline_cleaning_drops_one_byte_per_pair() {
    assert_eq!(clean_newlines(b"\r\r\n".to_vec()), b"\r\n".to_vec());
    assert_eq!(clean_newlines(b"a\r\nb\r\n".to_vec()), b"a\nb\n".to_vec());
    assert_eq!(clean_newlines(b"plain\ntext".to_vec()), b"plain\ntext".to_vec());
    assert_eq!(clean_newlines(b"\n\r".to_vec()), b"\n\r".to_vec());
}

#[test]
fn plain_telnet_data_passes_unchanged() {
    let chunk = handle_telnet_options(b"login: ");
    assert_eq!(chunk.text, b"login: ".to_vec());
    assert!(chunk.replies.is_empty());
    let chunk = handle_telnet_options(&[104, 255, 251, 1, 105]);
    assert_eq!(chunk.text, b"hi".to_vec());
    assert_eq!(chunk.replies, vec![255, 254, 1]);
}

#[test]
fn comment_stripping_keeps_a_trimmed_prefix() {
    assert_eq!(strip_comment(&chars("  Host a # note")), chars("Host a"));
    assert_eq!(strip_comment(&chars("  Port 22  ")), chars("Port 22"));
    assert_eq!(strip_comment(&chars("User \"a#b\" # c")), chars("User \"a#b\""));
    assert_eq!(strip_comment(&chars("# all comment")), chars(""));
}

#[test]
fn words_without_quotes_split_on_white_space() {
    let value = "  a\tb   c ";
    let expected: Vec<String> = value.split_whitespace().map(String::from).collect();
    assert_eq!(parse_words(value), expected);
    assert_eq!(parse_words(r#"a  "b c" 'd"e'"#), vec!["a", "b c", "d\"e"]);
    assert!(parse_words(r#"'' "" x"#).iter().all(|w| !w.is_empty()));
}

#[test]
fn a_second_known_hosts_pass_adds_nothing() {
    let mut report = parse_ssh_config("Host a *.lan\n  HostName 10.0.0.1\n", "/home/alice");
    assert_eq!(report.skipped_wildcards, 1);
    assert_eq!(report.skipped_hashed_hosts + report.skipped_standalone_hosts + report.malformed_known_hosts, 0);
    let known = "10.0.0.1 ssh-ed25519 AAAA\n  10.0.0.1 ssh-ed25519 AAAA  \n|1|x|y ssh-rsa BBB\n[A]:22,b ssh-rsa CCC\n";
    enrich_from_known_hosts(&mut report, known);
    let first = report.candidates[0].known_host_lines.clone();
    assert_eq!(first, vec!["10.0.0.1 ssh-ed25519 AAAA".to_string(), "[A]:22,b ssh-rsa CCC".to_string()]);
    let hashed = report.skipped_hashed_hosts;
    enrich_from_known_hosts(&mut report, known);
    assert_eq!(report.candidates[0].known_host_lines, first);
    assert_eq!(report.skipped_hashed_hosts, hashed + 1);
    assert_eq!(report.skipped_wildcards, 1);
}

#[test]
fn stripped_comments_are_their_own_trim() {
    for line in ["  a b  # c", "\tx\t", "'#' y ", "#", ""] {
        let out: String = strip_comment(&chars(line)).into_iter().collect();
        assert_eq!(out.trim(), out.as_str());
    }
}

#[test]
fn directives_split_into_keyword_and_value() {
    assert_eq!(
        split_directive(&chars("  HostName = example.com  ")),
        Some((chars("HostName"), chars("example.com")))
    );
    assert_eq!(split_directive(&chars("Port==22")), Some((chars("Port"), chars("22"))));
    assert_eq!(split_directive(&chars("   ")), None);
    assert_eq!(split_directive(&chars("Host")), None);
    assert_eq!(split_directive(&chars("Host = ")), None);
    assert_eq!(split_directive(&chars("=Host a")), None);
    assert_eq!(split_directive(&chars("Host=\t= a b")), Some((chars("Host"), chars("a b"))));
}

#[test]
fn sudo_cleaning_without_password_drops_only_prompt_lines() {
    let out = clean_sudo_output(b"[sudo] password for bob:\nline one\n\nPassword:\nline two".to_vec(), "");
    assert_eq!(out, b"line one\n\nline two".to_vec());
}

#[test]
fn known_hosts_keeps_old_lines_first_then_new_ones_in_file_order() {
    let strings = |v: &[&str]| v.iter().map(|s| s.to_string()).collect::<Vec<String>>();
    let mut report = DiscoveryReport {
        candidates: vec![SshImportCandidate {
            name: "a".to_string(),
            host: "10.0.0.1".to_string(),
            port: 22,
            username: None,
            identity_file: None,
            known_host_lines: strings(&["10.0.0.1 ssh-rsa OLD", "z", "10.0.0.1 ssh-rsa OLD"]),
        }],
        skipped_wildcards: 3,
        skipped_hashed_hosts: 0,
        skipped_standalone_hosts: 0,
        malformed_known_hosts: 0,
    };
    enrich_from_known_hosts(&mut report, "10.0.0.1 ssh-ed25519 B\n10.0.0.1 ssh-rsa OLD\nA ssh-ed25519 A\n");
    assert_eq!(
        report.candidates[0].known_host_lines,
        strings(&["10.0.0.1 ssh-rsa OLD", "z", "10.0.0.1 ssh-ed25519 B", "A ssh-ed25519 A"])
    );
    assert_eq!(report.skipped_wildcards, 3);
}
