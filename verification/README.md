# teleprompt_cli

A connection manager for SSH and Telnet devices whose core is verified with
Verus: device records and their store, OpenSSH config and known_hosts
discovery, Telnet option negotiation and login, sudo prompt handling, the
authentication and host-key decisions of an SSH session, the bookkeeping of
an SSH import, and the steps of creating the default Ed25519 key pair.

Layout:

- `src/` is the verified library.
  - `text.rs`: string and line handling with specifications (trimming,
    splitting, case folding, decimal output).
  - `paths.rs`: path joining, through `std::path`.
  - `credentials.rs`: devices, OS types, host key policies and the
    credential store (a map from names to devices).
  - `crypto.rs`: encryption of the stored bytes (Argon2id key derivation,
    AES-256-GCM), through the `argon2` and `aes-gcm` crates.
  - `ssh_config.rs`: `~/.ssh/config` parsing, known_hosts enrichment and the
    laws that discovery keeps.
  - `ssh.rs`: sudo prompt detection and filtering, host key outcomes,
    authentication steps, sudo capability probes.
  - `telnet.rs`: option negotiation, prompt search and the Telnet session
    state machine.
  - `keygen.rs`: the key-pair state machine, with an Ed25519 key expanded
    from a randomly drawn seed and both halves encoded through the
    `ssh-key` crate.
  - `commands.rs`: answers to prompts, device preparation, adding and
    editing devices, the import bookkeeping, and the planning of a remote
    command.
  - `import.rs`: the SSH import as a state machine that the program drives.
  - `error.rs`: the error type and its exit codes.
- `tests/` runs the library on concrete values.
- `app/` is the command-line program: argument parsing, terminal prompts,
  files, JSON encoding of the store and the network sessions, each step
  decided by the library.
