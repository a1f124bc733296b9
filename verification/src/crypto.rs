//! End-to-end encryption of mailbox objects: Argon2id turns the passphrase
//! and salt into a 32-byte key once; each message is sealed with
//! XSalsa20-Poly1305 (`crypto_secretbox`) under a fresh random nonce.
//! An object is `nonce || sealed message`.

use vstd::prelude::*;
use vstd::slice::slice_subrange;
use vstd::utf8::encode_utf8;
use crate::wire::{append_decimal, decimal_chars};
use dryoc::classic::crypto_pwhash::{crypto_pwhash, PasswordHashAlgorithm};
use dryoc::classic::crypto_secretbox::{crypto_secretbox_easy, crypto_secretbox_open_easy};
use dryoc::constants::{CRYPTO_PWHASH_MEMLIMIT_INTERACTIVE, CRYPTO_PWHASH_OPSLIMIT_INTERACTIVE};
use dryoc::rng::copy_randombytes;

verus! {

/// Salt length Argon2id takes.
pub const SALT_BYTES: usize = 16;
/// Nonce length of `crypto_secretbox`.
pub const NONCE_BYTES: usize = 24;
/// Authentication tag length of `crypto_secretbox`.
pub const MAC_BYTES: usize = 16;

/// The key Argon2id (library default INTERACTIVE costs) derives from a
/// password and a salt.
pub uninterp spec fn argon2id_key(password: Seq<u8>, salt: Seq<u8>) -> Seq<u8>;

/// The sealed form of `msg` under `nonce` and `key` (XSalsa20-Poly1305).
pub uninterp spec fn secretbox_seal(msg: Seq<u8>, nonce: Seq<u8>, key: Seq<u8>) -> Seq<u8>;

/// What opening `sealed` under `nonce` and `key` yields: `None` when the
/// authentication tag does not match.
pub uninterp spec fn secretbox_open(sealed: Seq<u8>, nonce: Seq<u8>, key: Seq<u8>) -> Option<Seq<u8>>;

/// Trusted: wraps `dryoc::classic::crypto_pwhash::crypto_pwhash` with
/// Argon2id13 and the INTERACTIVE limits, writing a 32-byte key. Claims that
/// a key it returns is `argon2id_key` of the password and salt. When the
/// library reports an error (bad lengths or limits, or Argon2 itself
/// failing) the result is `None`; nothing says when that happens.
#[verifier::external_body]
fn pwhash_argon2id(password: &[u8], salt: &[u8]) -> (r: Option<[u8; 32]>)
    ensures
        r matches Some(k) ==> k@ == argon2id_key(password@, salt@),
{
    let mut key = [0u8; 32];
    match crypto_pwhash(
        &mut key,
        password,
        salt,
        CRYPTO_PWHASH_OPSLIMIT_INTERACTIVE,
        CRYPTO_PWHASH_MEMLIMIT_INTERACTIVE,
        PasswordHashAlgorithm::Argon2id13,
    ) {
        Ok(()) => Some(key),
        Err(_) => None,
    }
}

/// Trusted: wraps `dryoc::classic::crypto_secretbox::crypto_secretbox_easy`
/// into an output of `msg.len() + 16` bytes. The source fails only for a
/// message longer than `usize::MAX - 16` or a wrong output length, both
/// excluded here, so the call always succeeds. Claims: the result is
/// `secretbox_seal` of the arguments, 16 bytes longer than the message, and
/// opening it with the same nonce and key gives the message back (the
/// defining property of authenticated encryption).
#[verifier::external_body]
fn secretbox_seal_bytes(msg: &[u8], nonce: &[u8; 24], key: &[u8; 32]) -> (r: Vec<u8>)
    requires
        msg@.len() + MAC_BYTES <= usize::MAX,
    ensures
        r@ == secretbox_seal(msg@, nonce@, key@),
        r@.len() == msg@.len() + MAC_BYTES,
        secretbox_open(r@, nonce@, key@) == Some(msg@),
{
    let n = msg.len() + MAC_BYTES;
    let mut out = vec![0u8; n];
    match crypto_secretbox_easy(&mut out, msg, nonce, key) {
        Ok(()) => out,
        Err(_) => Vec::new(),
    }
}

/// Trusted: wraps `dryoc::classic::crypto_secretbox::crypto_secretbox_open_easy`
/// into an output of `sealed.len() - 16` bytes. Claims the outcome is
/// `secretbox_open` of the arguments, and that a message it gives back is
/// one whose sealed form is `sealed`: the source accepts only a tag equal to
/// the one Poly1305 computes over the ciphertext, and XSalsa20 then yields
/// the message whose encryption is that ciphertext.
#[verifier::external_body]
fn secretbox_open_bytes(sealed: &[u8], nonce: &[u8; 24], key: &[u8; 32]) -> (r: Option<Vec<u8>>)
    requires
        sealed@.len() >= MAC_BYTES,
    ensures
        match r {
            Some(m) => secretbox_open(sealed@, nonce@, key@) == Some(m@) && sealed@ == secretbox_seal(
                m@,
                nonce@,
                key@,
            ),
            None => secretbox_open(sealed@, nonce@, key@) is None,
        },
{
    let n = sealed.len() - MAC_BYTES;
    let mut out = vec![0u8; n];
    match crypto_secretbox_open_easy(&mut out, sealed, nonce, key) {
        Ok(()) => Some(out),
        Err(_) => None,
    }
}

/// Trusted: wraps `dryoc::rng::copy_randombytes` filling 24 bytes from the
/// operating system's random source. Nothing is claimed of the bytes.
#[verifier::external_body]
fn random_nonce() -> (r: [u8; 24]) {
    let mut nonce = [0u8; NONCE_BYTES];
    copy_randombytes(&mut nonce);
    nonce
}

/// A fresh random Argon2id salt.
///
/// Trusted: wraps `dryoc::rng::copy_randombytes` filling 16 bytes from the
/// operating system's random source. Nothing is claimed of the bytes.
#[verifier::external_body]
pub fn random_salt() -> (r: [u8; 16]) {
    let mut salt = [0u8; SALT_BYTES];
    copy_randombytes(&mut salt);
    salt
}

#[derive(Debug)]
pub enum CryptoError {
    /// The salt does not have `SALT_BYTES` bytes; holds the length it has.
    SaltLength(usize),
    /// Argon2id reported a failure.
    KeyDerivation,
    /// The message is too long to be sealed in addressable memory.
    TooLarge,
    /// An object shorter than a nonce and a tag.
    Truncated(usize),
    /// Wrong key or salt, or altered data: the tag does not match.
    Decrypt,
}

/// What `CryptoError::to_string` says; it never holds key material.
pub open spec fn crypto_message(e: CryptoError) -> Seq<char> {
    match e {
        CryptoError::SaltLength(n) => "salt phải đúng 16 byte, đang có "@ + decimal_chars(n as nat),
        CryptoError::KeyDerivation => "Argon2id thất bại"@,
        CryptoError::TooLarge => "mã hoá thất bại: nội dung quá lớn"@,
        CryptoError::Truncated(n) => "object cụt: "@ + decimal_chars(n as nat) + " byte, tối thiểu 40"@,
        CryptoError::Decrypt => "giải mã thất bại — passphrase không khớp hoặc dữ liệu hỏng"@,
    }
}

impl CryptoError {
    /// The error as a message for the user.
    pub fn to_string(&self) -> (r: String)
        ensures
            r@ == crypto_message(*self),
    {
        match self {
            CryptoError::SaltLength(n) => {
                let mut m = "salt phải đúng 16 byte, đang có ".to_owned();
                append_decimal(&mut m, *n as u64);
                m
            },
            CryptoError::KeyDerivation => "Argon2id thất bại".to_owned(),
            CryptoError::TooLarge => "mã hoá thất bại: nội dung quá lớn".to_owned(),
            CryptoError::Truncated(n) => {
                let mut m = "object cụt: ".to_owned();
                append_decimal(&mut m, *n as u64);
                m.append(" byte, tối thiểu 40");
                m
            },
            CryptoError::Decrypt => "giải mã thất bại — passphrase không khớp hoặc dữ liệu hỏng".to_owned(),
        }
    }
}

/// The session key, derived once at start-up.
pub struct SecretKey {
    key: [u8; 32],
}

impl View for SecretKey {
    type V = Seq<u8>;

    closed spec fn view(&self) -> Seq<u8> {
        self.key@
    }
}

/// The object holding `msg` sealed under `nonce` and `key`.
pub open spec fn sealed_object(key: Seq<u8>, nonce: Seq<u8>, msg: Seq<u8>) -> Seq<u8> {
    nonce + secretbox_seal(msg, nonce, key)
}

/// What decrypting `blob` with `key` gives: `None` for an object shorter
/// than nonce and tag, or whose tag does not match.
pub open spec fn decrypt_spec(key: Seq<u8>, blob: Seq<u8>) -> Option<Seq<u8>> {
    if blob.len() < NONCE_BYTES + MAC_BYTES {
        None
    } else {
        secretbox_open(blob.skip(NONCE_BYTES as int), blob.take(NONCE_BYTES as int), key)
    }
}

/// Argon2id with the library's default (INTERACTIVE) costs: the same
/// passphrase and salt give the same key on both machines.
pub fn derive_key(passphrase: &str, salt: &[u8]) -> (r: Result<SecretKey, CryptoError>)
    ensures
        match r {
            Ok(k) => salt@.len() == SALT_BYTES && k@ == argon2id_key(encode_utf8(passphrase@), salt@),
            Err(CryptoError::SaltLength(n)) => salt@.len() != SALT_BYTES && n == salt@.len(),
            Err(CryptoError::KeyDerivation) => salt@.len() == SALT_BYTES,
            Err(_) => false,
        },
{
    if salt.len() != SALT_BYTES {
        return Err(CryptoError::SaltLength(salt.len()));
    }
    match pwhash_argon2id(passphrase.as_bytes(), salt) {
        Some(key) => Ok(SecretKey { key }),
        None => Err(CryptoError::KeyDerivation),
    }
}

impl SecretKey {
    /// Seals `plaintext` under the given nonce: `nonce || sealed`.
    pub fn encrypt_with_nonce(&self, plaintext: &[u8], nonce: [u8; 24]) -> (r: Result<Vec<u8>, CryptoError>)
        ensures
            match r {
                Ok(out) => plaintext@.len() + NONCE_BYTES + MAC_BYTES <= usize::MAX && out@ == sealed_object(
                    self@,
                    nonce@,
                    plaintext@,
                ) && decrypt_spec(self@, out@) == Some(plaintext@) && out@.len() == plaintext@.len() + NONCE_BYTES
                    + MAC_BYTES,
                Err(e) => e is TooLarge && plaintext@.len() + NONCE_BYTES + MAC_BYTES > usize::MAX,
            },
    {
        if plaintext.len() > usize::MAX - NONCE_BYTES - MAC_BYTES {
            return Err(CryptoError::TooLarge);
        }
        let sealed = secretbox_seal_bytes(plaintext, &nonce, &self.key);
        let mut out: Vec<u8> = Vec::new();
        let mut i: usize = 0;
        while i < NONCE_BYTES
            invariant
                i <= NONCE_BYTES,
                out@ == nonce@.take(i as int),
            decreases NONCE_BYTES - i,
        {
            out.push(nonce[i]);
            i += 1;
            assert(out@ =~= nonce@.take(i as int));
        }
        let mut j: usize = 0;
        while j < sealed.len()
            invariant
                j <= sealed@.len(),
                out@ == nonce@ + sealed@.take(j as int),
                nonce@.len() == NONCE_BYTES,
            decreases sealed@.len() - j,
        {
            out.push(sealed[j]);
            j += 1;
            assert(out@ =~= nonce@ + sealed@.take(j as int));
        }
        proof {
            assert(nonce@.take(NONCE_BYTES as int) =~= nonce@);
            assert(sealed@.take(sealed@.len() as int) =~= sealed@);
            assert(out@.skip(NONCE_BYTES as int) =~= sealed@);
            assert(out@.take(NONCE_BYTES as int) =~= nonce@);
        }
        Ok(out)
    }

    /// Returns `nonce || ciphertext` with a fresh random nonce, so sealing
    /// the same content twice gives two different objects.
    pub fn encrypt(&self, plaintext: &[u8]) -> (r: Result<Vec<u8>, CryptoError>)
        ensures
            match r {
                Ok(out) => plaintext@.len() + NONCE_BYTES + MAC_BYTES <= usize::MAX && exists|nonce: Seq<u8>|
                    nonce.len() == NONCE_BYTES && out@ == #[trigger] sealed_object(self@, nonce, plaintext@)
                        && decrypt_spec(self@, out@) == Some(plaintext@) && out@.len() == plaintext@.len()
                        + NONCE_BYTES + MAC_BYTES,
                Err(e) => e is TooLarge && plaintext@.len() + NONCE_BYTES + MAC_BYTES > usize::MAX,
            },
    {
        let nonce = random_nonce();
        let r = self.encrypt_with_nonce(plaintext, nonce);
        proof {
            if r is Ok {
                assert(nonce@.len() == NONCE_BYTES);
            }
        }
        r
    }

    /// Opens an object made by `encrypt`. A wrong key, a wrong salt or a
    /// flipped byte all end in `Decrypt`: Poly1305 catches them.
    pub fn decrypt(&self, blob: &[u8]) -> (r: Result<Vec<u8>, CryptoError>)
        ensures
            match r {
                Ok(m) => decrypt_spec(self@, blob@) == Some(m@) && blob@ == sealed_object(
                    self@,
                    blob@.take(NONCE_BYTES as int),
                    m@,
                ),
                Err(CryptoError::Truncated(n)) => blob@.len() < NONCE_BYTES + MAC_BYTES && n == blob@.len(),
                Err(CryptoError::Decrypt) => blob@.len() >= NONCE_BYTES + MAC_BYTES && decrypt_spec(self@, blob@) is None,
                Err(_) => false,
            },
    {
        if blob.len() < NONCE_BYTES + MAC_BYTES {
            return Err(CryptoError::Truncated(blob.len()));
        }
        let mut nonce = [0u8; 24];
        let mut i: usize = 0;
        while i < NONCE_BYTES
            invariant
                i <= NONCE_BYTES,
                blob@.len() >= NONCE_BYTES + MAC_BYTES,
                nonce@.len() == NONCE_BYTES,
                forall|k: int| 0 <= k < i ==> nonce@[k] == blob@[k],
            decreases NONCE_BYTES - i,
        {
            nonce[i] = blob[i];
            i += 1;
        }
        assert(nonce@ =~= blob@.take(NONCE_BYTES as int));
        let sealed = slice_subrange(blob, NONCE_BYTES, blob.len());
        assert(sealed@ =~= blob@.skip(NONCE_BYTES as int));
        match secretbox_open_bytes(sealed, &nonce, &self.key) {
            Some(m) => Ok(m),
            None => Err(CryptoError::Decrypt),
        }
    }
}

} // verus!
