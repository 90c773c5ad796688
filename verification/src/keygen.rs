//! The default Ed25519 key pair: where it goes, and the decisions between
//! the file-system steps, which the caller performs and reports back.
use vstd::prelude::*;

use crate::error::TelepromptError;
use crate::paths::{join_path, path_joined};

verus! {

#[verifier::external_type_specification]
#[verifier::external_body]
pub struct ExKeyError(::ssh_key::Error);

/// The length in bytes of an Ed25519 seed.
pub const SEED_LEN: usize = 32;

/// The OpenSSH private key text, with LF line endings, of the unencrypted
/// Ed25519 key that `ssh_key` expands from a 32-byte seed.
pub uninterp spec fn ed25519_private_openssh(seed: Seq<u8>) -> Seq<char>;

/// The one-line OpenSSH public key of the key that an OpenSSH private key
/// text encodes.
pub uninterp spec fn openssh_public_of(private_openssh: Seq<char>) -> Seq<char>;

/// Expands the 32-byte `seed` into an Ed25519 key with `ssh_key`
/// (`Ed25519PrivateKey::try_from`, `Ed25519Keypair::from`,
/// `PrivateKey::from`) and encodes both halves: `PrivateKey::to_openssh`
/// with LF line endings, then `PublicKey::to_openssh` on the key's public
/// half. The contract names the private text, which depends on the seed
/// alone, and states that the public line is that of the same key. It also
/// states that a 32-byte seed always encodes: in the crate's source the
/// conversion fails only on a seed of another length, and the two encodings
/// of an unencrypted Ed25519 key, whose size is fixed, fail only on a length
/// overflow or a malformed buffer. The error carries `true` when the private
/// half failed to encode.
#[verifier::external_body]
fn encode_ed25519_pair(seed: &[u8]) -> (r: Result<(String, String), (bool, ::ssh_key::Error)>)
    requires
        seed@.len() == SEED_LEN,
    ensures
        r is Ok,
        r matches Ok((p, q)) ==> p@ == ed25519_private_openssh(seed@) && q@ == openssh_public_of(p@),
{
    let private = match ::ssh_key::private::Ed25519PrivateKey::try_from(seed) {
        Ok(private) => private,
        Err(error) => return Err((true, error)),
    };
    let key = ::ssh_key::PrivateKey::from(::ssh_key::private::Ed25519Keypair::from(private));
    let private_openssh = match key.to_openssh(::ssh_key::LineEnding::LF) {
        Ok(text) => text.as_str().to_owned(),
        Err(error) => return Err((true, error)),
    };
    match key.public_key().to_openssh() {
        Ok(public_openssh) => Ok((private_openssh, public_openssh)),
        Err(error) => Err((false, error)),
    }
}

/// The message of an `ssh_key::Error`, through its `Display` impl.
#[verifier::external_body]
fn key_error_text(error: &::ssh_key::Error) -> (r: String) {
    format!("{error}")
}

/// The directory of the default key pair: `.ssh` in the home directory.
pub open spec fn key_dir_spec(home: Seq<char>) -> Seq<char> {
    path_joined(home, ".ssh"@)
}

/// The private key of the default pair: `teleprompt_ed25519` in `.ssh`.
pub open spec fn private_key_path_spec(home: Seq<char>) -> Seq<char> {
    path_joined(key_dir_spec(home), "teleprompt_ed25519"@)
}

/// The public key: the private key's path with `.pub` appended.
pub open spec fn public_key_path_spec(home: Seq<char>) -> Seq<char> {
    private_key_path_spec(home) + ".pub"@
}

/// How a key-pair request ended.
#[derive(Debug, Clone, PartialEq, Eq)]
pub enum GenerateKeyOutcome {
    /// Both files were written.
    Generated { private_key: String, public_key: String },
    /// A destination file existed, and nothing was changed.
    AlreadyExists { private_key: String, public_key: String },
}

/// What the caller does next.
#[derive(Debug)]
pub enum KeygenAction {
    /// Find out whether the two key files and their directory exist.
    Probe { private_key: String, public_key: String, dir: String },
    /// Create `dir` with its parents; when `restrict`, then give it
    /// owner-only permissions.
    CreateDir { dir: String, restrict: bool },
    /// Create `path`, which must not exist, with owner-only permissions;
    /// write `contents` and sync.
    WritePrivate { path: String, contents: String },
    /// Create `path`, which must not exist; write `contents` and sync.
    WritePublic { path: String, contents: String },
    /// Remove the private and/or the public key file as flagged, ignoring
    /// failures, and end with `result`.
    Finish { remove_private: bool, remove_public: bool, result: Result<GenerateKeyOutcome, TelepromptError> },
}

/// What came of writing a key file.
#[derive(Debug)]
pub enum FileWrite {
    /// The file was created, written and synced.
    Written,
    /// The file could not be created; `already_exists` when that was
    /// because it exists.
    OpenFailed { already_exists: bool, error: String },
    /// The file was created but writing or syncing it failed.
    WriteFailed(String),
}

/// The key as text, or the failure that stopped generating or encoding it.
#[derive(Debug)]
pub enum KeyMaterial {
    GenerateFailed(String),
    PrivateEncodeFailed(String),
    PublicEncodeFailed(String),
    Encoded { private_openssh: String, public_openssh: String },
}

/// Whether `m` holds the two halves of the Ed25519 key expanded from `seed`.
pub open spec fn encodes_seed(m: KeyMaterial, seed: Seq<u8>) -> bool {
    m matches KeyMaterial::Encoded { private_openssh, public_openssh } && private_openssh@
        == ed25519_private_openssh(seed) && public_openssh@ == openssh_public_of(private_openssh@)
}

/// Encodes both halves of the Ed25519 key expanded from a 32-byte seed in
/// the OpenSSH format.
pub fn key_material_from_seed(seed: &[u8]) -> (m: KeyMaterial)
    requires
        seed@.len() == SEED_LEN,
    ensures
        encodes_seed(m, seed@),
{
    match encode_ed25519_pair(seed) {
        Ok((private_openssh, public_openssh)) => KeyMaterial::Encoded { private_openssh, public_openssh },
        Err((true, error)) => KeyMaterial::PrivateEncodeFailed(key_error_text(&error)),
        Err((false, error)) => KeyMaterial::PublicEncodeFailed(key_error_text(&error)),
    }
}

/// One run of creating the default key pair, which never overwrites a file
/// and removes only files that it created.
pub struct KeygenSession {
    private_key: String,
    public_key: String,
    dir: String,
    public_contents: String,
}

/// Whether `a` ends the run, removing the private and the public key file
/// as flagged.
pub open spec fn finishes(a: KeygenAction, remove_private: bool, remove_public: bool) -> bool {
    a matches KeygenAction::Finish { remove_private: p, remove_public: q, .. } && p == remove_private && q
        == remove_public
}

/// Whether `r` reports the run's two paths as already existing.
pub open spec fn reports_existing(r: Result<GenerateKeyOutcome, TelepromptError>, private_key: Seq<char>, public_key: Seq<char>) -> bool {
    r matches Ok(GenerateKeyOutcome::AlreadyExists { private_key: p, public_key: q }) && p@ == private_key && q@
        == public_key
}

/// Whether `r` reports the run's two paths as written.
pub open spec fn reports_generated(r: Result<GenerateKeyOutcome, TelepromptError>, private_key: Seq<char>, public_key: Seq<char>) -> bool {
    r matches Ok(GenerateKeyOutcome::Generated { private_key: p, public_key: q }) && p@ == private_key && q@
        == public_key
}

/// Whether `r` is an I/O error with message `e`.
pub open spec fn io_error(r: Result<GenerateKeyOutcome, TelepromptError>, e: Seq<char>) -> bool {
    r matches Err(TelepromptError::Io(m)) && m@ == e
}

/// Whether `r` reports that no key could be generated.
pub open spec fn generation_failed(r: Result<GenerateKeyOutcome, TelepromptError>) -> bool {
    r matches Err(TelepromptError::Other(m)) && "Failed to generate Ed25519 key: "@.is_prefix_of(m@)
}

/// Whether `r` is an error of another kind with message `e`.
pub open spec fn other_error(r: Result<GenerateKeyOutcome, TelepromptError>, e: Seq<char>) -> bool {
    r matches Err(TelepromptError::Other(m)) && m@ == e
}

/// Starts creating the default key pair under `home`: the first step finds
/// out which of its files exist.
pub fn generate_default_keypair(home: &str) -> (r: (KeygenSession, KeygenAction))
    ensures
        r.0.private_key_path() == private_key_path_spec(home@),
        r.0.public_key_path() == public_key_path_spec(home@),
        r.0.dir_path() == key_dir_spec(home@),
        r.1 matches KeygenAction::Probe { private_key, public_key, dir } && private_key@ == private_key_path_spec(
            home@,
        ) && public_key@ == public_key_path_spec(home@) && dir@ == key_dir_spec(home@),
{
    let dir = join_path(home, ".ssh");
    let private_key = join_path(dir.as_str(), "teleprompt_ed25519");
    let public_key = private_key.clone().concat(".pub");
    proof {
        reveal_strlit(".ssh");
        reveal_strlit("teleprompt_ed25519");
        reveal_strlit(".pub");
    }
    let action = KeygenAction::Probe { private_key: private_key.clone(), public_key: public_key.clone(), dir: dir.clone() };
    (KeygenSession { private_key, public_key, dir, public_contents: String::new() }, action)
}

impl KeygenSession {
    pub closed spec fn private_key_path(&self) -> Seq<char> {
        self.private_key@
    }

    pub closed spec fn public_key_path(&self) -> Seq<char> {
        self.public_key@
    }

    pub closed spec fn dir_path(&self) -> Seq<char> {
        self.dir@
    }

    /// The public key file's contents once the key is encoded.
    pub closed spec fn public_file_contents(&self) -> Seq<char> {
        self.public_contents@
    }

    /// The private key file of this run.
    pub fn private_key_file(&self) -> (r: &str)
        ensures
            r@ == self.private_key_path(),
    {
        self.private_key.as_str()
    }

    /// The public key file of this run.
    pub fn public_key_file(&self) -> (r: &str)
        ensures
            r@ == self.public_key_path(),
    {
        self.public_key.as_str()
    }

    fn outcome_exists(&self) -> (o: GenerateKeyOutcome)
        ensures
            reports_existing(Ok(o), self.private_key_path(), self.public_key_path()),
    {
        GenerateKeyOutcome::AlreadyExists { private_key: self.private_key.clone(), public_key: self.public_key.clone() }
    }

    /// After probing: an existing key file ends the run unchanged; else the
    /// directory is created, and restricted when it did not exist.
    pub fn on_probed(&self, private_exists: bool, public_exists: bool, dir_exists: bool) -> (a: KeygenAction)
        ensures
            private_exists || public_exists ==> finishes(a, false, false) && reports_existing(
                a->result,
                self.private_key_path(),
                self.public_key_path(),
            ),
            !(private_exists || public_exists) ==> (a matches KeygenAction::CreateDir { dir, restrict } && dir@
                == self.dir_path() && restrict == !dir_exists),
    {
        if private_exists || public_exists {
            KeygenAction::Finish { remove_private: false, remove_public: false, result: Ok(self.outcome_exists()) }
        } else {
            KeygenAction::CreateDir { dir: self.dir.clone(), restrict: !dir_exists }
        }
    }

    /// After the key is generated and encoded: a failure ends the run with
    /// its message, having written nothing; else the private key is written
    /// and the public key's line, tagged ` teleprompt`, is kept for later.
    pub fn on_key_material(&mut self, m: KeyMaterial) -> (a: KeygenAction)
        ensures
            final(self).private_key_path() == old(self).private_key_path(),
            final(self).public_key_path() == old(self).public_key_path(),
            final(self).dir_path() == old(self).dir_path(),
            match m {
                KeyMaterial::GenerateFailed(e) => finishes(a, false, false) && other_error(
                    a->result,
                    "Failed to generate Ed25519 key: "@ + e@,
                ),
                KeyMaterial::PrivateEncodeFailed(e) => finishes(a, false, false) && other_error(
                    a->result,
                    "Failed to encode private key: "@ + e@,
                ),
                KeyMaterial::PublicEncodeFailed(e) => finishes(a, false, false) && other_error(
                    a->result,
                    "Failed to encode public key: "@ + e@,
                ),
                KeyMaterial::Encoded { private_openssh, public_openssh } => a matches KeygenAction::WritePrivate { path, contents }
                    && path@ == old(self).private_key_path() && contents@ == private_openssh@
                    && final(self).public_file_contents() == public_openssh@ + " teleprompt\n"@,
            },
    {
        match m {
            KeyMaterial::GenerateFailed(e) => {
                let msg = "Failed to generate Ed25519 key: ".to_owned().concat(e.as_str());
                KeygenAction::Finish { remove_private: false, remove_public: false, result: Err(TelepromptError::Other(msg)) }
            },
            KeyMaterial::PrivateEncodeFailed(e) => {
                let msg = "Failed to encode private key: ".to_owned().concat(e.as_str());
                KeygenAction::Finish { remove_private: false, remove_public: false, result: Err(TelepromptError::Other(msg)) }
            },
            KeyMaterial::PublicEncodeFailed(e) => {
                let msg = "Failed to encode public key: ".to_owned().concat(e.as_str());
                KeygenAction::Finish { remove_private: false, remove_public: false, result: Err(TelepromptError::Other(msg)) }
            },
            KeyMaterial::Encoded { private_openssh, public_openssh } => {
                self.public_contents = public_openssh.concat(" teleprompt\n");
                KeygenAction::WritePrivate { path: self.private_key.clone(), contents: private_openssh }
            },
        }
    }

    /// After a 32-byte seed is drawn for the key: the private key expanded
    /// from it is written next, and its public half, tagged ` teleprompt`,
    /// is kept for later. A failed draw ends the run with its message,
    /// having written nothing.
    pub fn on_seed(&mut self, drawn: Result<Vec<u8>, String>) -> (a: KeygenAction)
        requires
            drawn matches Ok(seed) ==> seed@.len() == SEED_LEN,
        ensures
            final(self).private_key_path() == old(self).private_key_path(),
            final(self).public_key_path() == old(self).public_key_path(),
            final(self).dir_path() == old(self).dir_path(),
            match drawn {
                Ok(seed) => a matches KeygenAction::WritePrivate { path, contents } && path@
                    == old(self).private_key_path() && contents@ == ed25519_private_openssh(seed@)
                    && final(self).public_file_contents() == openssh_public_of(contents@) + " teleprompt\n"@,
                Err(e) => finishes(a, false, false) && other_error(
                    a->result,
                    "Failed to generate Ed25519 key: "@ + e@,
                ),
            },
    {
        match drawn {
            Err(error) => self.on_key_material(KeyMaterial::GenerateFailed(error)),
            Ok(seed) => {
                let m = key_material_from_seed(seed.as_slice());
                self.on_key_material(m)
            },
        }
    }

    /// After creating the directory: a failure ends the run; else a seed is
    /// drawn and the run goes on as `on_seed` says for it: the private key
    /// is written, and the public key kept for later is the public half of
    /// that same key.
    pub fn on_dir_ready(&mut self, created: Result<(), String>) -> (a: KeygenAction)
        ensures
            final(self).private_key_path() == old(self).private_key_path(),
            final(self).public_key_path() == old(self).public_key_path(),
            final(self).dir_path() == old(self).dir_path(),
            created matches Err(e) ==> finishes(a, false, false) && io_error(a->result, e@),
            created is Ok ==> (a matches KeygenAction::WritePrivate { path, contents } && path@
                == old(self).private_key_path() && final(self).public_file_contents() == openssh_public_of(
                contents@,
            ) + " teleprompt\n"@ && exists|seed: Seq<u8>|
                seed.len() == SEED_LEN && #[trigger] ed25519_private_openssh(seed) == contents@) || (finishes(
                a,
                false,
                false,
            ) && generation_failed(a->result)),
    {
        match created {
            Err(e) => KeygenAction::Finish { remove_private: false, remove_public: false, result: Err(TelepromptError::Io(e)) },
            Ok(()) => {
                let drawn = crate::crypto::random_bytes(SEED_LEN);
                let a = self.on_seed(drawn);
                proof {
                    reveal_strlit("Failed to generate Ed25519 key: ");
                }
                a
            },
        }
    }

    /// After writing the private key: a file that could not be created ends
    /// the run; one that could not be written is removed; else the public
    /// key is written.
    pub fn on_private_written(&self, w: FileWrite) -> (a: KeygenAction)
        ensures
            match w {
                FileWrite::Written => a matches KeygenAction::WritePublic { path, contents } && path@
                    == self.public_key_path() && contents@ == self.public_file_contents(),
                FileWrite::OpenFailed { error, .. } => finishes(a, false, false) && io_error(a->result, error@),
                FileWrite::WriteFailed(error) => finishes(a, true, false) && io_error(a->result, error@),
            },
    {
        match w {
            FileWrite::Written => KeygenAction::WritePublic { path: self.public_key.clone(), contents: self.public_contents.clone() },
            FileWrite::OpenFailed { error, .. } => KeygenAction::Finish {
                remove_private: false,
                remove_public: false,
                result: Err(TelepromptError::Io(error)),
            },
            FileWrite::WriteFailed(error) => KeygenAction::Finish {
                remove_private: true,
                remove_public: false,
                result: Err(TelepromptError::Io(error)),
            },
        }
    }

    /// After writing the public key: the private key written by this run is
    /// removed on any failure, the public key only when this run created
    /// it; a public key that appeared meanwhile counts as already existing.
    pub fn on_public_written(&self, w: FileWrite) -> (a: KeygenAction)
        ensures
            match w {
                FileWrite::Written => finishes(a, false, false) && reports_generated(
                    a->result,
                    self.private_key_path(),
                    self.public_key_path(),
                ),
                FileWrite::OpenFailed { already_exists: true, .. } => finishes(a, true, false) && reports_existing(
                    a->result,
                    self.private_key_path(),
                    self.public_key_path(),
                ),
                FileWrite::OpenFailed { already_exists: false, error } => finishes(a, true, false) && io_error(
                    a->result,
                    error@,
                ),
                FileWrite::WriteFailed(error) => finishes(a, true, true) && io_error(a->result, error@),
            },
    {
        match w {
            FileWrite::Written => KeygenAction::Finish {
                remove_private: false,
                remove_public: false,
                result: Ok(GenerateKeyOutcome::Generated { private_key: self.private_key.clone(), public_key: self.public_key.clone() }),
            },
            FileWrite::OpenFailed { already_exists, error } => {
                if already_exists {
                    KeygenAction::Finish { remove_private: true, remove_public: false, result: Ok(self.outcome_exists()) }
                } else {
                    KeygenAction::Finish { remove_private: true, remove_public: false, result: Err(TelepromptError::Io(error)) }
                }
            },
            FileWrite::WriteFailed(error) => KeygenAction::Finish {
                remove_private: true,
                remove_public: true,
                result: Err(TelepromptError::Io(error)),
            },
        }
    }
}

} // verus!
