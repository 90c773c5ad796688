//! Verified core of a connection manager for SSH and Telnet devices:
//! device records and their encrypted store, OpenSSH config and known_hosts
//! discovery, Telnet option negotiation, sudo prompt handling, key-pair
//! creation and the decision steps of connecting, authenticating and
//! importing devices.
use vstd::prelude::*;

pub mod commands;
pub mod credentials;
pub mod crypto;
pub mod error;
pub mod import;
pub mod keygen;
pub mod paths;
pub mod ssh;
pub mod ssh_config;
pub mod telnet;
pub mod text;

verus! {
} // verus!
