//! The on-disk layout of the encrypted seed record.
//!
//! A vault file is the ciphertext followed by the 12-byte nonce and the
//! 32-byte salt. No other reader of the file exists, so the layout is a
//! private choice of this library; decoding is exact and total, and decoding
//! an encoded record gives the record back.
use vstd::prelude::*;

verus! {

/// Number of bytes of the nonce stored in a vault record.
pub const NONCE_LEN: usize = 12;

/// Number of bytes of the salt stored in a vault record.
pub const SALT_LEN: usize = 32;

/// The encrypted seed record: ciphertext with authentication tag, the nonce
/// the cipher was run with, and the salt the key was derived with.
pub struct EncryptedMnemonic {
    pub ciphertext: Vec<u8>,
    pub nonce: Vec<u8>,
    pub salt: Vec<u8>,
}

impl EncryptedMnemonic {
    /// A record is well formed when nonce and salt have their fixed sizes.
    pub open spec fn well_formed(&self) -> bool {
        self.nonce@.len() == NONCE_LEN && self.salt@.len() == SALT_LEN
    }
}

/// The byte layout of a record: ciphertext, then nonce, then salt.
pub open spec fn spec_encode_record(ct: Seq<u8>, nonce: Seq<u8>, salt: Seq<u8>) -> Seq<u8> {
    ct + nonce + salt
}

/// The record a byte string holds: the last 32 bytes are the salt, the 12
/// before them the nonce, the rest the ciphertext. Byte strings shorter than
/// nonce and salt together hold no record.
pub open spec fn spec_decode_record(bytes: Seq<u8>) -> Option<(Seq<u8>, Seq<u8>, Seq<u8>)> {
    if bytes.len() >= NONCE_LEN + SALT_LEN {
        let ct_len = bytes.len() - NONCE_LEN - SALT_LEN;
        Some(
            (
                bytes.subrange(0, ct_len as int),
                bytes.subrange(ct_len as int, (ct_len + NONCE_LEN) as int),
                bytes.subrange((ct_len + NONCE_LEN) as int, bytes.len() as int),
            ),
        )
    } else {
        None
    }
}

/// Decoding inverts encoding: a well-formed record laid out by
/// `spec_encode_record` is recovered exactly by `spec_decode_record`.
pub proof fn lemma_decode_encode_record(ct: Seq<u8>, nonce: Seq<u8>, salt: Seq<u8>)
    requires
        nonce.len() == NONCE_LEN,
        salt.len() == SALT_LEN,
    ensures
        spec_decode_record(spec_encode_record(ct, nonce, salt)) == Some((ct, nonce, salt)),
{
    let bytes = spec_encode_record(ct, nonce, salt);
    let ct_len = bytes.len() - NONCE_LEN - SALT_LEN;
    assert(ct_len == ct.len());
    assert(bytes.subrange(0, ct_len as int) =~= ct);
    assert(bytes.subrange(ct_len as int, (ct_len + NONCE_LEN) as int) =~= nonce);
    assert(bytes.subrange((ct_len + NONCE_LEN) as int, bytes.len() as int) =~= salt);
}

/// Lay a record out as one byte string.
pub fn encode_record(record: &EncryptedMnemonic) -> (r: Vec<u8>)
    ensures
        r@ == spec_encode_record(record.ciphertext@, record.nonce@, record.salt@),
{
    let mut out: Vec<u8> = Vec::new();
    out.extend_from_slice(record.ciphertext.as_slice());
    out.extend_from_slice(record.nonce.as_slice());
    out.extend_from_slice(record.salt.as_slice());
    assert(out@ =~= record.ciphertext@ + record.nonce@ + record.salt@);
    out
}

/// Read a record back out of a byte string, or nothing when the string is
/// too short to hold one.
pub fn decode_record(bytes: &Vec<u8>) -> (r: Option<EncryptedMnemonic>)
    ensures
        match r {
            Some(rec) => {
                &&& spec_decode_record(bytes@) == Some((rec.ciphertext@, rec.nonce@, rec.salt@))
                &&& rec.well_formed()
            },
            None => spec_decode_record(bytes@) is None,
        },
{
    if bytes.len() < NONCE_LEN + SALT_LEN {
        return None;
    }
    let ct_len = bytes.len() - NONCE_LEN - SALT_LEN;
    let mut ciphertext: Vec<u8> = Vec::new();
    let mut i: usize = 0;
    while i < ct_len
        invariant
            i <= ct_len,
            ct_len + NONCE_LEN + SALT_LEN == bytes@.len(),
            ct_len + NONCE_LEN + SALT_LEN <= usize::MAX,
            ciphertext@ =~= bytes@.subrange(0, i as int),
        decreases ct_len - i,
    {
        ciphertext.push(bytes[i]);
        i += 1;
    }
    let mut nonce: Vec<u8> = Vec::new();
    let mut j: usize = 0;
    while j < NONCE_LEN
        invariant
            j <= NONCE_LEN,
            ct_len + NONCE_LEN + SALT_LEN == bytes@.len(),
            ct_len + NONCE_LEN + SALT_LEN <= usize::MAX,
            nonce@ =~= bytes@.subrange(ct_len as int, ct_len + j as int),
        decreases NONCE_LEN - j,
    {
        nonce.push(bytes[ct_len + j]);
        j += 1;
    }
    let mut salt: Vec<u8> = Vec::new();
    let mut k: usize = 0;
    while k < SALT_LEN
        invariant
            k <= SALT_LEN,
            ct_len + NONCE_LEN + SALT_LEN == bytes@.len(),
            ct_len + NONCE_LEN + SALT_LEN <= usize::MAX,
            salt@ =~= bytes@.subrange(ct_len + NONCE_LEN as int, ct_len + NONCE_LEN + k as int),
        decreases SALT_LEN - k,
    {
        salt.push(bytes[ct_len + NONCE_LEN + k]);
        k += 1;
    }
    Some(EncryptedMnemonic { ciphertext, nonce, salt })
}

} // verus!
