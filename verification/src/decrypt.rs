//! Decryption of transported chunks: a nonce of twelve bytes, then the ChaCha20-Poly1305 ciphertext with
//! its tag of sixteen.

use crate::text::{copy_range, digit_value, trim_str, trimmed};
use chacha20poly1305::aead::{AeadInPlace, KeyInit};
use chacha20poly1305::{ChaCha20Poly1305, Key, Nonce};
use vstd::prelude::*;

verus! {

/// Bytes of the nonce in front of a chunk.
pub const NONCE_LEN: usize = 12;

/// Bytes of the tag behind a chunk.
pub const TAG_LEN: usize = 16;

/// The error of `hex::decode`.
#[verifier::external_type_specification]
#[verifier::external_body]
pub struct ExFromHexError(hex::FromHexError);

/// The error of the cipher.
#[verifier::external_type_specification]
#[verifier::external_body]
pub struct ExAeadError(chacha20poly1305::Error);

/// Why a key was refused.
#[derive(Debug, Clone, Copy, PartialEq, Eq, Structural)]
pub enum KeyError {
    /// The text is not in hexadecimal.
    NotHex,
    /// The key has this many bytes instead of 32.
    WrongLength(usize),
}

/// Why a chunk was refused.
#[derive(Debug, Clone, Copy, PartialEq, Eq, Structural)]
pub enum DecryptError {
    /// The payload, of this length, has no room for a nonce.
    TooShort(usize),
    /// The payload does not have the length that belongs to the chunk.
    WrongLength { expected: u64, actual: usize },
    /// The tag does not fit: the key is not the right one, or the data is damaged.
    NotAuthentic,
}

/// Whether a text spells bytes in hexadecimal, two digits each.
pub open spec fn is_hex(s: Seq<char>) -> bool {
    s.len() % 2 == 0 && forall|i: int| 0 <= i < s.len() ==> digit_value(#[trigger] s[i], 16) is Some
}

/// The bytes that hexadecimal digits spell.
pub open spec fn hex_bytes(s: Seq<char>) -> Seq<u8> {
    Seq::new(s.len() / 2, |i: int| (digit_value(s[2 * i], 16)->0 * 16 + digit_value(s[2 * i + 1], 16)->0) as u8)
}

/// `hex::decode`: it takes an even number of hexadecimal digits, in either case, and returns the bytes
/// that they spell; anything else is an error. Which error is left unsaid.
#[verifier::external_body]
fn hex_decode(s: &str) -> (r: Result<Vec<u8>, hex::FromHexError>)
    ensures
        r is Ok <==> is_hex(s@),
        r matches Ok(v) ==> v@ == hex_bytes(s@),
{
    hex::decode(s)
}

/// What ChaCha20-Poly1305 makes of a ciphertext with its tag, without associated data; nothing where the
/// tag does not fit.
pub uninterp spec fn opened(key: Seq<u8>, nonce: Seq<u8>, sealed: Seq<u8>) -> Option<Seq<u8>>;

/// `AeadInPlace::decrypt_in_place` of `ChaCha20Poly1305`, with no associated data: it either fails or
/// leaves the plain text, which is shorter than its input by the tag.
#[verifier::external_body]
fn open_sealed(key: &[u8; 32], nonce: &[u8], sealed: Vec<u8>) -> (r: Result<Vec<u8>, chacha20poly1305::Error>)
    requires
        nonce@.len() == 12,
    ensures
        (match r {
            Ok(v) => Some(v@),
            Err(_) => None,
        }) == opened(key@, nonce@, sealed@),
        r matches Ok(v) ==> v@.len() + 16 == sealed@.len(),
{
    let mut text = sealed;
    ChaCha20Poly1305::new(Key::from_slice(key)).decrypt_in_place(Nonce::from_slice(nonce), &[], &mut text)?;
    Ok(text)
}

/// The plain text of a chunk.
pub open spec fn chunk_text(key: Seq<u8>, payload: Seq<u8>, chunk_len: u32) -> Result<Seq<u8>, DecryptError> {
    if payload.len() < NONCE_LEN {
        Err(DecryptError::TooShort(payload.len() as usize))
    } else if payload.len() != NONCE_LEN + chunk_len + TAG_LEN {
        Err(DecryptError::WrongLength { expected: (NONCE_LEN + chunk_len + TAG_LEN) as u64, actual: payload.len() as usize })
    } else {
        match opened(key, payload.take(NONCE_LEN as int), payload.skip(NONCE_LEN as int)) {
            Some(text) => Ok(text),
            None => Err(DecryptError::NotAuthentic),
        }
    }
}

/// Decrypts chunks with one key.
#[derive(Debug, Clone, Copy)]
pub struct Decryptor {
    key: [u8; 32],
}

impl View for Decryptor {
    type V = Seq<u8>;

    closed spec fn view(&self) -> Seq<u8> {
        self.key@
    }
}

impl Decryptor {
    /// A decryptor with a key.
    pub fn new(key: [u8; 32]) -> (d: Decryptor)
        ensures
            d@ == key@,
    {
        Decryptor { key }
    }

    /// A decryptor with a key given in hexadecimal; white space around it is ignored.
    pub fn from_key_hex(hex_str: &str) -> (r: Result<Decryptor, KeyError>)
        ensures
            ({
                let t = trimmed(hex_str@);
                match r {
                    Ok(d) => is_hex(t) && t.len() == 64 && d@ == hex_bytes(t),
                    Err(KeyError::NotHex) => !is_hex(t),
                    Err(KeyError::WrongLength(n)) => is_hex(t) && n == t.len() / 2 && n != 32,
                }
            }),
    {
        match hex_decode(trim_str(hex_str)) {
            Ok(bytes) => Decryptor::from_key_bytes(&bytes),
            Err(_) => Err(KeyError::NotHex),
        }
    }

    /// A decryptor with the key that a key file holds.
    pub fn from_key_bytes(bytes: &[u8]) -> (r: Result<Decryptor, KeyError>)
        ensures
            match r {
                Ok(d) => bytes@.len() == 32 && d@ == bytes@,
                Err(KeyError::NotHex) => false,
                Err(KeyError::WrongLength(n)) => n == bytes@.len() && n != 32,
            },
    {
        if bytes.len() != 32 {
            return Err(KeyError::WrongLength(bytes.len()));
        }
        let v = copy_range(bytes, 0, bytes.len());
        let key: [u8; 32] = crate::codec::to_array(&v);
        assert(key@ =~= bytes@);
        Ok(Decryptor { key })
    }

    /// Decrypts the payload of a chunk frame.
    pub fn decrypt_chunk_payload(&self, payload: &[u8], chunk_len: u32) -> (r: Result<Vec<u8>, DecryptError>)
        ensures
            (match r {
                Ok(v) => Ok(v@),
                Err(e) => Err(e),
            }) == chunk_text(self@, payload@, chunk_len),
            r matches Ok(v) ==> v@.len() == chunk_len,
    {
        if payload.len() < NONCE_LEN {
            return Err(DecryptError::TooShort(payload.len()));
        }
        let expected: u64 = 28 + chunk_len as u64;
        if payload.len() as u64 != expected {
            return Err(DecryptError::WrongLength { expected, actual: payload.len() });
        }
        let nonce = copy_range(payload, 0, NONCE_LEN);
        let sealed = copy_range(payload, NONCE_LEN, payload.len());
        assert(nonce@ =~= payload@.take(NONCE_LEN as int));
        assert(sealed@ =~= payload@.skip(NONCE_LEN as int));
        match open_sealed(&self.key, &nonce, sealed) {
            Ok(text) => Ok(text),
            Err(_) => Err(DecryptError::NotAuthentic),
        }
    }
}

} // verus!
