//! Encryption of the credential store: a key derived from the master
//! password with Argon2id, and AES-256-GCM. Encrypted data is the salt, the
//! nonce, then the ciphertext with its tag.
use vstd::prelude::*;

use aes_gcm::aead::{Aead, KeyInit};

use crate::error::TelepromptError;
use crate::ssh::opt_bytes;
use crate::text::utf8_bytes;

verus! {

pub const SALT_LEN: usize = 16;

pub const NONCE_LEN: usize = 12;

pub const KEY_LEN: usize = 32;

pub const TAG_LEN: usize = 16;

/// The 32-byte key that Argon2id, with the `argon2` crate's default
/// parameters, derives from a password and a salt; `None` where it refuses
/// them.
pub uninterp spec fn argon2id_key(password: Seq<u8>, salt: Seq<u8>) -> Option<Seq<u8>>;

/// What AES-256-GCM makes of a plaintext under a key and a nonce, with no
/// associated data: the ciphertext with its tag appended; `None` where it
/// refuses the plaintext.
pub uninterp spec fn aes_gcm_seal(key: Seq<u8>, nonce: Seq<u8>, plaintext: Seq<u8>) -> Option<Seq<u8>>;

/// What AES-256-GCM recovers from a ciphertext under a key and a nonce;
/// `None` where the tag does not authenticate it.
pub uninterp spec fn aes_gcm_open(key: Seq<u8>, nonce: Seq<u8>, ciphertext: Seq<u8>) -> Option<Seq<u8>>;

/// The longest password and salt, in bytes, that Argon2 accepts.
pub const ARGON2_MAX_INPUT_LEN: u64 = 0xFFFF_FFFF;

/// The shortest salt, in bytes, that Argon2 accepts.
pub const ARGON2_MIN_SALT_LEN: u64 = 8;

/// The longest plaintext, in bytes, that AES-GCM encrypts: 2^36.
pub const AES_GCM_MAX_PLAINTEXT_LEN: u64 = 0x10_0000_0000;

/// Calls `argon2::Argon2::default().hash_password_into` for a 32-byte key.
/// The contract names the key, which depends on password and salt alone,
/// and states the crate's only refusals of a 32-byte output: a password
/// over `0xFFFF_FFFF` bytes, or a salt under 8 or over `0xFFFF_FFFF` bytes.
/// It says nothing of the error's text.
#[verifier::external_body]
fn derive_key(password: &[u8], salt: &[u8]) -> (r: Result<Vec<u8>, String>)
    ensures
        match r {
            Ok(k) => argon2id_key(password@, salt@) == Some(k@) && k@.len() == KEY_LEN,
            Err(_) => argon2id_key(password@, salt@) is None,
        },
        password@.len() <= ARGON2_MAX_INPUT_LEN && ARGON2_MIN_SALT_LEN <= salt@.len() <= ARGON2_MAX_INPUT_LEN
            ==> r is Ok,
{
    let mut key = vec![0u8; KEY_LEN];
    match ::argon2::Argon2::default().hash_password_into(password, salt, &mut key) {
        Ok(()) => Ok(key),
        Err(error) => Err(error.to_string()),
    }
}

/// Calls `aes_gcm::Aes256Gcm::new_from_slice` on the key and `encrypt` on
/// the plaintext. The contract names the ciphertext and states, as the
/// `aead` documentation and source give it, that the 16-byte tag is
/// appended to the encrypted plaintext, and that with a 32-byte key the
/// only refusal is a plaintext over 2^36 bytes.
#[verifier::external_body]
fn seal(key: &[u8], nonce: &[u8], plaintext: &[u8]) -> (r: Result<Vec<u8>, String>)
    requires
        key@.len() == KEY_LEN,
        nonce@.len() == NONCE_LEN,
    ensures
        match r {
            Ok(c) => aes_gcm_seal(key@, nonce@, plaintext@) == Some(c@) && c@.len() == plaintext@.len()
                + TAG_LEN,
            Err(_) => aes_gcm_seal(key@, nonce@, plaintext@) is None,
        },
        plaintext@.len() <= AES_GCM_MAX_PLAINTEXT_LEN ==> r is Ok,
{
    let cipher = match ::aes_gcm::Aes256Gcm::new_from_slice(key) {
        Ok(cipher) => cipher,
        Err(error) => return Err(error.to_string()),
    };
    match cipher.encrypt(::aes_gcm::Nonce::from_slice(nonce), plaintext) {
        Ok(c) => Ok(c),
        Err(error) => Err(error.to_string()),
    }
}

/// Calls `aes_gcm::Aes256Gcm::new_from_slice` on the key and `decrypt` on
/// the ciphertext. The contract names the result and states that AES-GCM
/// decryption recovers what encryption under the same key and nonce sealed.
#[verifier::external_body]
fn open(key: &[u8], nonce: &[u8], ciphertext: &[u8]) -> (r: Option<Vec<u8>>)
    requires
        key@.len() == KEY_LEN,
        nonce@.len() == NONCE_LEN,
    ensures
        opt_bytes(r) == aes_gcm_open(key@, nonce@, ciphertext@),
        forall|p: Seq<u8>| #[trigger] aes_gcm_seal(key@, nonce@, p) == Some(ciphertext@) ==> opt_bytes(r) == Some(p),
{
    let cipher = match ::aes_gcm::Aes256Gcm::new_from_slice(key) {
        Ok(cipher) => cipher,
        Err(_) => return None,
    };
    match cipher.decrypt(::aes_gcm::Nonce::from_slice(nonce), ciphertext) {
        Ok(p) => Some(p),
        Err(_) => None,
    }
}

/// Fills `n` bytes from the operating system's random generator with
/// `rand::RngCore::try_fill_bytes` on `rand::rngs::OsRng`. The bytes are
/// random, and the generator may fail: only the number of bytes drawn is
/// stated, and nothing of the error's text.
#[verifier::external_body]
pub(crate) fn random_bytes(n: usize) -> (r: Result<Vec<u8>, String>)
    ensures
        r matches Ok(b) ==> b@.len() == n,
{
    let mut bytes = vec![0u8; n];
    match ::rand::RngCore::try_fill_bytes(&mut ::rand::rngs::OsRng, &mut bytes) {
        Ok(()) => Ok(bytes),
        Err(error) => Err(error.to_string()),
    }
}

/// The encrypted form of `plaintext` under `password` with a given salt and
/// nonce, where key derivation and encryption accept them.
pub open spec fn sealed_with(password: Seq<u8>, salt: Seq<u8>, nonce: Seq<u8>, plaintext: Seq<u8>) -> Option<Seq<u8>> {
    match argon2id_key(password, salt) {
        Some(k) => match aes_gcm_seal(k, nonce, plaintext) {
            Some(c) => Some(salt + nonce + c),
            None => None,
        },
        None => None,
    }
}

/// The plaintext that encrypted data opens to under `password`.
pub open spec fn opened_with(password: Seq<u8>, data: Seq<u8>) -> Option<Seq<u8>> {
    if data.len() < SALT_LEN + NONCE_LEN {
        None
    } else {
        match argon2id_key(password, data.take(SALT_LEN as int)) {
            Some(k) => aes_gcm_open(k, data.subrange(SALT_LEN as int, (SALT_LEN + NONCE_LEN) as int), data.skip(
                (SALT_LEN + NONCE_LEN) as int,
            )),
            None => None,
        }
    }
}

fn slice_bytes(data: &[u8], lo: usize, hi: usize) -> (r: Vec<u8>)
    requires
        lo <= hi <= data@.len(),
    ensures
        r@ == data@.subrange(lo as int, hi as int),
{
    let mut r: Vec<u8> = Vec::new();
    let mut i: usize = lo;
    while i < hi
        invariant
            lo <= i <= hi,
            hi <= data@.len(),
            r@ == data@.subrange(lo as int, i as int),
        decreases hi - i,
    {
        r.push(data[i]);
        i += 1;
        assert(r@ =~= data@.subrange(lo as int, i as int));
    }
    r
}

/// Whether key derivation and encryption accept a password and a
/// plaintext of these lengths with a salt and nonce of the store's sizes.
pub open spec fn within_limits(password: Seq<u8>, plaintext: Seq<u8>) -> bool {
    password.len() <= ARGON2_MAX_INPUT_LEN && plaintext.len() <= AES_GCM_MAX_PLAINTEXT_LEN
}

/// Encrypts store bytes under the master password with the given salt and
/// nonce: exactly `sealed_with`, a refusal of key derivation or encryption
/// being reported, which cannot happen within the crates' limits.
pub fn seal_store(plaintext: &[u8], password: &str, salt: &[u8], nonce: &[u8]) -> (r: Result<Vec<u8>, TelepromptError>)
    requires
        salt@.len() == SALT_LEN,
        nonce@.len() == NONCE_LEN,
    ensures
        match sealed_with(vstd::utf8::encode_utf8(password@), salt@, nonce@, plaintext@) {
            Some(d) => r matches Ok(data) && data@ == d,
            None => r matches Err(e) && e is CryptoOrSerial,
        },
        within_limits(vstd::utf8::encode_utf8(password@), plaintext@) ==> r is Ok,
{
    let pw = utf8_bytes(password);
    let key = match derive_key(pw.as_slice(), salt) {
        Ok(k) => k,
        Err(e) => {
            return Err(TelepromptError::CryptoOrSerial(e));
        },
    };
    let c = match seal(key.as_slice(), nonce, plaintext) {
        Ok(c) => c,
        Err(e) => {
            return Err(TelepromptError::CryptoOrSerial(e));
        },
    };
    let mut data: Vec<u8> = Vec::new();
    crate::ssh::append_bytes(&mut data, salt);
    crate::ssh::append_bytes(&mut data, nonce);
    crate::ssh::append_bytes(&mut data, c.as_slice());
    assert(data@ =~= salt@ + nonce@ + c@);
    Ok(data)
}

/// The message of a failed draw from the random generator.
pub open spec fn random_failure(e: TelepromptError) -> bool {
    e matches TelepromptError::CryptoOrSerial(m) && "Failed to draw random bytes: "@.is_prefix_of(m@)
}

/// Encrypts store bytes under the master password with a fresh random salt
/// and nonce. Within the crates' limits it fails only when the random
/// generator does; a refusal of key derivation or encryption is reported.
pub fn encrypt_store(plaintext: &[u8], password: &str) -> (r: Result<Vec<u8>, TelepromptError>)
    ensures
        match r {
            Ok(data) => exists|salt: Seq<u8>, nonce: Seq<u8>|
                salt.len() == SALT_LEN && nonce.len() == NONCE_LEN && #[trigger] sealed_with(
                    vstd::utf8::encode_utf8(password@),
                    salt,
                    nonce,
                    plaintext@,
                ) == Some(data@),
            Err(e) => e is CryptoOrSerial,
        },
        within_limits(vstd::utf8::encode_utf8(password@), plaintext@) ==> r is Ok || (r matches Err(e)
            && random_failure(e)),
{
    let salt = match random_bytes(SALT_LEN) {
        Ok(b) => b,
        Err(e) => {
            return Err(random_error(e));
        },
    };
    let nonce = match random_bytes(NONCE_LEN) {
        Ok(b) => b,
        Err(e) => {
            return Err(random_error(e));
        },
    };
    seal_store(plaintext, password, salt.as_slice(), nonce.as_slice())
}

fn random_error(e: String) -> (r: TelepromptError)
    ensures
        random_failure(r),
{
    let msg = "Failed to draw random bytes: ".to_owned().concat(e.as_str());
    assert("Failed to draw random bytes: "@ =~= msg@.subrange(0, "Failed to draw random bytes: "@.len() as int));
    TelepromptError::CryptoOrSerial(msg)
}

/// Decrypts store bytes under the master password. Data that is too short,
/// a refused key derivation or a ciphertext that does not authenticate all
/// mean the password is wrong. Data that `encrypt_store` made from some
/// plaintext under the same password opens to that plaintext.
pub fn decrypt_store(data: &[u8], password: &str) -> (r: Result<Vec<u8>, TelepromptError>)
    ensures
        match opened_with(vstd::utf8::encode_utf8(password@), data@) {
            Some(p) => r matches Ok(v) && v@ == p,
            None => r == Err::<Vec<u8>, TelepromptError>(TelepromptError::InvalidPassword),
        },
        forall|salt: Seq<u8>, nonce: Seq<u8>, p: Seq<u8>|
            salt.len() == SALT_LEN && nonce.len() == NONCE_LEN && #[trigger] sealed_with(
                vstd::utf8::encode_utf8(password@),
                salt,
                nonce,
                p,
            ) == Some(data@) ==> (r matches Ok(v) && v@ == p),
{
    let pw = utf8_bytes(password);
    if data.len() < SALT_LEN + NONCE_LEN {
        proof {
            assert forall|salt: Seq<u8>, nonce: Seq<u8>, p: Seq<u8>|
                salt.len() == SALT_LEN && nonce.len() == NONCE_LEN && #[trigger] sealed_with(pw@, salt, nonce, p)
                    == Some(data@) implies false by {
                let k = argon2id_key(pw@, salt).unwrap();
                let c = aes_gcm_seal(k, nonce, p).unwrap();
                assert(data@ == salt + nonce + c);
            }
        }
        return Err(TelepromptError::InvalidPassword);
    }
    let salt = slice_bytes(data, 0, SALT_LEN);
    let nonce = slice_bytes(data, SALT_LEN, SALT_LEN + NONCE_LEN);
    let ciphertext = slice_bytes(data, SALT_LEN + NONCE_LEN, data.len());
    assert(salt@ =~= data@.take(SALT_LEN as int));
    assert(ciphertext@ =~= data@.skip((SALT_LEN + NONCE_LEN) as int));
    let key = match derive_key(pw.as_slice(), salt.as_slice()) {
        Ok(k) => k,
        Err(_) => {
            proof {
                assert forall|s: Seq<u8>, n: Seq<u8>, p: Seq<u8>|
                    s.len() == SALT_LEN && n.len() == NONCE_LEN && #[trigger] sealed_with(pw@, s, n, p)
                        == Some(data@) implies false by {
                    let k = argon2id_key(pw@, s).unwrap();
                    let c = aes_gcm_seal(k, n, p).unwrap();
                    assert(data@ == s + n + c);
                    assert(data@.take(SALT_LEN as int) =~= s);
                }
            }
            return Err(TelepromptError::InvalidPassword);
        },
    };
    let opened = open(key.as_slice(), nonce.as_slice(), ciphertext.as_slice());
    proof {
        assert forall|s: Seq<u8>, n: Seq<u8>, p: Seq<u8>|
            s.len() == SALT_LEN && n.len() == NONCE_LEN && #[trigger] sealed_with(pw@, s, n, p) == Some(data@)
                implies opt_bytes(opened) == Some(p) by {
            let k = argon2id_key(pw@, s).unwrap();
            let c = aes_gcm_seal(k, n, p).unwrap();
            assert(data@ == s + n + c);
            assert(data@.take(SALT_LEN as int) =~= s);
            assert(data@.subrange(SALT_LEN as int, (SALT_LEN + NONCE_LEN) as int) =~= n);
            assert(data@.skip((SALT_LEN + NONCE_LEN) as int) =~= c);
            assert(aes_gcm_seal(key@, nonce@, p) == Some(ciphertext@));
        }
    }
    match opened {
        Some(p) => Ok(p),
        None => Err(TelepromptError::InvalidPassword),
    }
}

} // verus!
