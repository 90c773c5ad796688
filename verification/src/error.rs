//! Errors of the library, each carrying plain values.
use vstd::prelude::*;

verus! {

/// What went wrong, with the details that a message needs.
#[derive(Debug, Clone, PartialEq, Eq)]
pub enum TelepromptError {
    /// An operating-system I/O failure, with its description.
    Io(String),
    /// The master password does not decrypt the store.
    InvalidPassword,
    /// The store could not be encrypted, decrypted or (de)serialised.
    CryptoOrSerial(String),
    /// No credential store exists yet.
    NotInitialized,
    /// No device of that name is registered.
    DeviceNotFound(String),
    /// A command-line usage error.
    Cli(String),
    /// The connection to an address failed.
    ConnectionFailed(String, String),
    /// The host key of an address was refused.
    HostKeyRejected(String, String),
    /// Authentication of a user at an address failed.
    AuthFailed(String, String),
    /// Sudo could not be authorised.
    SudoFailed(String),
    /// A prompt did not arrive within the given number of seconds.
    Timeout(u64),
    /// Any other failure, described.
    Other(String),
}

impl TelepromptError {
    /// The process exit code that reports this error: 2 for a rejected
    /// host key, 1 otherwise.
    pub fn exit_code(&self) -> (code: i32)
        ensures
            code == (if self is HostKeyRejected {
                2i32
            } else {
                1i32
            }),
    {
        match self {
            TelepromptError::HostKeyRejected(_, _) => 2,
            _ => 1,
        }
    }
}

} // verus!
