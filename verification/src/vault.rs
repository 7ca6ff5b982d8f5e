//! The seed vault: a password-protected store for the wallet's recovery
//! phrase.
//!
//! A phrase is sealed by drawing a fresh 32-byte salt, deriving a 32-byte key
//! from the password with a memory-hard hash, drawing a fresh 12-byte nonce,
//! and encrypting the phrase with an authenticated cipher; the record of
//! ciphertext, nonce and salt is the vault's whole persistent state. Opening
//! re-derives the key from the stored salt and decrypts; a tag mismatch
//! (wrong password or tampered record) is the only signal of failure, so the
//! vault gives no oracle distinguishing the two.
//!
//! The store itself is kept as plain bytes: the caller that owns the vault
//! file reads it into [`MnemonicStorage`] and writes the bytes back out after
//! a save. The encryption key exists only for the duration of one call and is
//! never part of the stored record.
use vstd::prelude::*;

use crate::codec::EncryptedMnemonic;
use crate::codec::decode_record;
use crate::codec::encode_record;
use crate::codec::lemma_decode_encode_record;
use crate::codec::spec_decode_record;
use chacha20poly1305::aead::Aead;
use chacha20poly1305::aead::KeyInit;
use bdk_wallet::keys::GeneratableKey;

verus! {

/// Ways a vault operation fails.
#[derive(Debug, Clone, Copy, PartialEq, Eq, Structural)]
pub enum VaultError {
    /// No record exists in the store.
    NotFound,
    /// The stored record's authentication tag did not verify: the password is
    /// wrong, or the record was corrupted or tampered with.
    AuthenticationFailed,
    /// The stored record does not hold a phrase: the container is malformed
    /// or the decrypted bytes are not text.
    Corrupt,
    /// The record could not be produced or persisted.
    WriteFailed,
}

/// The key the memory-hard password hash derives from a password and a salt.
/// The result depends on the password's characters and the salt alone.
pub uninterp spec fn argon2_key(password: Seq<char>, salt: Seq<u8>) -> Seq<u8>;

/// The ciphertext (with its authentication tag) that the authenticated
/// cipher produces from a key, a nonce, and a phrase's text. The result
/// depends on those three values alone.
pub uninterp spec fn chacha_seal(key: Seq<u8>, nonce: Seq<u8>, phrase: Seq<char>) -> Seq<u8>;

/// Relies on argon2::Argon2::hash_password_into with the default parameters:
/// it fills the 32-byte output from the password's bytes and the salt, and it
/// accepts any password of fewer than 2^32 bytes (a character is at most 4
/// bytes) with any salt of 8 to 2^32 - 1 bytes.
#[verifier::external_body]
fn derive_key(password: &str, salt: &[u8]) -> (r: Result<Vec<u8>, ()>)
    ensures
        r matches Ok(k) ==> k@ == argon2_key(password@, salt@) && k@.len() == 32,
        (password@.len() <= 0x3FFF_FFFF && 8 <= salt@.len() <= 0xFFFF_FFFF) ==> r is Ok,
{
    let mut key = [0u8; 32];
    match argon2::Argon2::default().hash_password_into(password.as_bytes(), salt, &mut key) {
        Ok(()) => Ok(key.to_vec()),
        Err(_) => Err(()),
    }
}

/// Relies on chacha20poly1305::ChaCha20Poly1305 encryption: the ciphertext
/// and tag are a function of key, nonce and plaintext alone; the keystream
/// makes two distinct plaintexts give distinct ciphertexts under one key and
/// nonce; encryption accepts any 32-byte key and any plaintext of fewer than
/// 2^30 characters (at most 2^32 bytes, under the cipher's block limit).
#[verifier::external_body]
fn aead_encrypt(key: &[u8], nonce: &[u8], phrase: &str) -> (r: Result<Vec<u8>, ()>)
    requires
        nonce@.len() == 12,
    ensures
        r matches Ok(c) ==> c@ == chacha_seal(key@, nonce@, phrase@),
        r matches Ok(c) ==> forall|other: Seq<char>|
            chacha_seal(key@, nonce@, other) == c@ ==> other == phrase@,
        (key@.len() == 32 && phrase@.len() <= 0x3FFF_FFFF) ==> r is Ok,
{
    let cipher = match chacha20poly1305::ChaCha20Poly1305::new_from_slice(key) {
        Ok(c) => c,
        Err(_) => {
            return Err(());
        },
    };
    let nonce = chacha20poly1305::Nonce::from_slice(nonce);
    match cipher.encrypt(nonce, phrase.as_bytes()) {
        Ok(ciphertext) => Ok(ciphertext),
        Err(_) => Err(()),
    }
}

/// What opening a sealed record yields.
enum Unsealed {
    /// The tag verified and the plaintext decoded as text.
    Phrase(String),
    /// The tag verified but the plaintext is not valid text.
    NotText,
    /// The tag did not verify under this key and nonce.
    Rejected,
}

/// Relies on chacha20poly1305::ChaCha20Poly1305 decryption and core's UTF-8
/// decoding: a phrase yielded is exactly the one whose sealing under this key
/// and nonce produced the ciphertext, and a ciphertext produced by sealing
/// some phrase under a 32-byte key always verifies and decodes back.
#[verifier::external_body]
fn aead_open(key: &[u8], nonce: &[u8], ciphertext: &[u8]) -> (r: Unsealed)
    requires
        nonce@.len() == 12,
    ensures
        r matches Unsealed::Phrase(m) ==> ciphertext@ == chacha_seal(key@, nonce@, m@),
        (key@.len() == 32 && (exists|m: Seq<char>|
            ciphertext@ == chacha_seal(key@, nonce@, m))) ==> r matches Unsealed::Phrase(_),
{
    let cipher = match chacha20poly1305::ChaCha20Poly1305::new_from_slice(key) {
        Ok(c) => c,
        Err(_) => {
            return Unsealed::Rejected;
        },
    };
    let nonce = chacha20poly1305::Nonce::from_slice(nonce);
    match cipher.decrypt(nonce, ciphertext) {
        Ok(plain) => match String::from_utf8(plain) {
            Ok(text) => Unsealed::Phrase(text),
            Err(_) => Unsealed::NotText,
        },
        Err(_) => Unsealed::Rejected,
    }
}

/// Relies on rand's operating-system randomness source to fill the buffer;
/// nothing is assumed of the bytes beyond their number.
#[verifier::external_body]
fn random_bytes(n: usize) -> (r: Vec<u8>)
    ensures
        r@.len() == n,
{
    let mut buf = vec![0u8; n];
    rand::RngCore::fill_bytes(&mut rand::rngs::OsRng, &mut buf);
    buf
}

/// Relies on the bip39 mnemonic generation re-exported by bdk_wallet: a
/// 12-word English phrase drawn from system randomness; its text is words
/// from a fixed list joined by single spaces, so it is short and never empty.
#[verifier::external_body]
fn generate_phrase() -> (r: Result<String, ()>)
    ensures
        r matches Ok(p) ==> 0 < p@.len() <= 256,
{
    let generated: Result<
        bdk_wallet::keys::GeneratedKey<bdk_wallet::bip39::Mnemonic, bdk_wallet::miniscript::Segwitv0>,
        _,
    > = bdk_wallet::bip39::Mnemonic::generate((
        bdk_wallet::keys::bip39::WordCount::Words12,
        bdk_wallet::bip39::Language::English,
    ));
    match generated {
        Ok(key) => Ok(key.to_string()),
        Err(_) => Err(()),
    }
}

/// True when the stored bytes decode to a record whose ciphertext is the
/// sealing of `phrase` under the key this password derives with the record's
/// own salt — that is, when opening the store with this password can yield
/// `phrase`.
pub open spec fn spec_vault_holds(bytes: Seq<u8>, password: Seq<char>, phrase: Seq<char>) -> bool {
    match spec_decode_record(bytes) {
        Some(rec) => rec.0 == chacha_seal(argon2_key(password, rec.2), rec.1, phrase),
        None => false,
    }
}

/// True when the store holds `phrase` under `password` and no other phrase:
/// the record then decides what every later load returns.
pub open spec fn spec_vault_determined(
    bytes: Seq<u8>,
    password: Seq<char>,
    phrase: Seq<char>,
) -> bool {
    &&& spec_vault_holds(bytes, password, phrase)
    &&& forall|other: Seq<char>| spec_vault_holds(bytes, password, other) ==> other == phrase
}

/// A vault record determines at most one phrase: whatever else the store can
/// be said to hold under the same password is that phrase. This is what makes
/// repeated loads — and repeated `load_or_create_by_password` calls — agree.
pub proof fn lemma_vault_phrase_unique(
    bytes: Seq<u8>,
    password: Seq<char>,
    phrase: Seq<char>,
    other: Seq<char>,
)
    requires
        spec_vault_determined(bytes, password, phrase),
        spec_vault_holds(bytes, password, other),
    ensures
        other == phrase,
{
}

/// The seed store: the raw bytes of the one persisted vault record, if any.
/// The caller that owns the vault file loads it here and persists the bytes
/// after a save; the vault itself never touches the file system.
pub struct MnemonicStorage {
    /// The persisted record's bytes; nothing has been stored when `None`.
    pub contents: Option<Vec<u8>>,
}

impl MnemonicStorage {
    /// An empty store: nothing persisted yet.
    pub fn new() -> (r: Self)
        ensures
            r.contents is None,
    {
        MnemonicStorage { contents: None }
    }

    /// A store holding previously persisted record bytes.
    pub fn with_contents(bytes: Vec<u8>) -> (r: Self)
        ensures
            r.contents matches Some(c) && c@ == bytes@,
    {
        MnemonicStorage { contents: Some(bytes) }
    }

    /// Seal `mnemonic` under `password` and replace the store's record with
    /// the result. A fresh salt and nonce are drawn on every call, the key is
    /// derived from the password and salt, and the phrase is encrypted and
    /// laid out as one record; afterwards the store determines exactly this
    /// phrase under this password.
    ///
    /// The length bounds are the limits of the key derivation and the cipher;
    /// any actual password and phrase are far below them.
    pub fn save_mnemonic(&mut self, mnemonic: &str, password: &str) -> (r: Result<
        (),
        VaultError,
    >)
        requires
            password@.len() <= 0x3FFF_FFFF,
            mnemonic@.len() <= 0x3FFF_FFFF,
        ensures
            r is Ok,
            final(self).contents matches Some(c) && spec_vault_determined(c@, password@, mnemonic@),
    {
        let salt = random_bytes(32);
        let key = match derive_key(password, salt.as_slice()) {
            Ok(k) => k,
            Err(()) => {
                return Err(VaultError::WriteFailed);
            },
        };
        let nonce = random_bytes(12);
        let ciphertext = match aead_encrypt(key.as_slice(), nonce.as_slice(), mnemonic) {
            Ok(c) => c,
            Err(()) => {
                return Err(VaultError::WriteFailed);
            },
        };
        let record = EncryptedMnemonic { ciphertext, nonce, salt };
        let bytes = encode_record(&record);
        proof {
            lemma_decode_encode_record(record.ciphertext@, record.nonce@, record.salt@);
            assert forall|other: Seq<char>|
                spec_vault_holds(bytes@, password@, other) implies other == mnemonic@ by {
                assert(chacha_seal(key@, record.nonce@, other) == record.ciphertext@);
            }
        }
        self.contents = Some(bytes);
        Ok(())
    }

    /// Open the store with `password`. Fails with `NotFound` exactly when
    /// nothing is stored; with `Corrupt` when the record's container is
    /// malformed or its plaintext is not text; with `AuthenticationFailed`
    /// when the tag rejects the derived key — a wrong password and a tampered
    /// record are indistinguishable by design. When the store determines a
    /// phrase under this password, that phrase is returned; the store is
    /// never changed by a load.
    pub fn load_mnemonic(&self, password: &str) -> (r: Result<String, VaultError>)
        requires
            password@.len() <= 0x3FFF_FFFF,
        ensures
            (self.contents is None) <==> r == Err::<String, VaultError>(VaultError::NotFound),
            r matches Ok(m) ==> (self.contents matches Some(c) && spec_vault_holds(
                c@,
                password@,
                m@,
            )),
            (self.contents matches Some(c) && (exists|m: Seq<char>|
                spec_vault_holds(c@, password@, m))) ==> r is Ok,
            forall|m0: Seq<char>|
                (self.contents is Some && #[trigger] spec_vault_determined(
                    self.contents->Some_0@,
                    password@,
                    m0,
                )) ==> (r matches Ok(m) && m@ == m0),
            r matches Err(e) ==> e != VaultError::WriteFailed,
            (self.contents matches Some(c) && spec_decode_record(c@) is None) ==> r == Err::<
                String,
                VaultError,
            >(VaultError::Corrupt),
    {
        let stored = match &self.contents {
            Some(bytes) => bytes,
            None => {
                return Err(VaultError::NotFound);
            },
        };
        let record = match decode_record(stored) {
            Some(rec) => rec,
            None => {
                return Err(VaultError::Corrupt);
            },
        };
        let key = match derive_key(password, record.salt.as_slice()) {
            Ok(k) => k,
            Err(()) => {
                return Err(VaultError::AuthenticationFailed);
            },
        };
        match aead_open(key.as_slice(), record.nonce.as_slice(), record.ciphertext.as_slice()) {
            Unsealed::Phrase(m) => {
                proof {
                    assert(spec_vault_holds(self.contents->Some_0@, password@, m@));
                }
                Ok(m)
            },
            Unsealed::NotText => {
                proof {
                    assert forall|m: Seq<char>|
                        !spec_vault_holds(self.contents->Some_0@, password@, m) by {}
                }
                Err(VaultError::Corrupt)
            },
            Unsealed::Rejected => {
                proof {
                    assert forall|m: Seq<char>|
                        !spec_vault_holds(self.contents->Some_0@, password@, m) by {}
                }
                Err(VaultError::AuthenticationFailed)
            },
        }
    }

    /// Open the store, or populate it first. An existing record is never
    /// rewritten: it is opened exactly as `load_mnemonic` does and its result
    /// — the phrase it determines, or its authentication or corruption error
    /// — is returned as-is. Only a missing record causes a fresh 12-word
    /// phrase to be generated, sealed and stored, re-opened to confirm the
    /// round trip, and returned; the new store then determines that phrase.
    pub fn load_or_create_by_password(&mut self, password: &str) -> (r: Result<
        String,
        VaultError,
    >)
        requires
            password@.len() <= 0x3FFF_FFFF,
        ensures
            r matches Ok(m) ==> (final(self).contents matches Some(c) && spec_vault_holds(
                c@,
                password@,
                m@,
            )),
            old(self).contents matches Some(_) ==> *final(self) == *old(self),
            forall|m0: Seq<char>|
                (old(self).contents is Some && #[trigger] spec_vault_determined(
                    old(self).contents->Some_0@,
                    password@,
                    m0,
                )) ==> (r matches Ok(m) && m@ == m0),
            (old(self).contents matches Some(c) && (exists|m: Seq<char>|
                spec_vault_holds(c@, password@, m))) ==> r is Ok,
            old(self).contents is None ==> (r matches Ok(m) ==> (final(self).contents matches Some(
                c,
            ) && spec_vault_determined(c@, password@, m@))),
            old(self).contents is None ==> (r matches Err(e) ==> e == VaultError::WriteFailed),
            old(self).contents is None ==> (r matches Ok(m) ==> m@.len() > 0),
            r matches Err(e) ==> e != VaultError::NotFound,
    {
        match self.load_mnemonic(password) {
            Ok(m) => Ok(m),
            Err(e) => {
                if e == VaultError::NotFound {
                    let phrase = match generate_phrase() {
                        Ok(p) => p,
                        Err(()) => {
                            return Err(VaultError::WriteFailed);
                        },
                    };
                    match self.save_mnemonic(phrase.as_str(), password) {
                        Ok(()) => {},
                        Err(_) => {
                            return Err(VaultError::WriteFailed);
                        },
                    }
                    self.load_mnemonic(password)
                } else {
                    Err(e)
                }
            },
        }
    }
}

} // verus!
