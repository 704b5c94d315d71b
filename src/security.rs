use vstd::prelude::*;
use vstd::string::StringSliceAdditionalSpecFns;

use aes_gcm::aead::{Aead, AeadCore, KeyInit, OsRng};

verus! {

/// The AES-256-GCM ciphertext, tag appended, of `plaintext` under `key` and
/// `nonce`, with no associated data.
pub uninterp spec fn aes256gcm_seal(key: Seq<u8>, nonce: Seq<u8>, plaintext: Seq<u8>) -> Seq<u8>;

/// The AES-256-GCM decryption of `ciphertext`, tag appended, under `key` and
/// `nonce`: `None` when the tag does not authenticate it.
pub uninterp spec fn aes256gcm_open(key: Seq<u8>, nonce: Seq<u8>, ciphertext: Seq<u8>) -> Option<
    Seq<u8>,
>;

/// Length of a nonce, in bytes.
pub const NONCE_SIZE: usize = 12;

/// Length of a key, in bytes.
pub const KEY_SIZE: usize = 32;

/// Longest plaintext that AES-GCM encrypts, in bytes.
pub const MAX_PLAINTEXT: u64 = 0x10_0000_0000;

#[verifier::external_type_specification]
#[verifier::external_body]
pub struct ExAeadError(aes_gcm::Error);

#[verifier::external_type_specification]
#[verifier::external_body]
pub struct ExFromUtf8Error(std::string::FromUtf8Error);

/// Relies on `AeadCore::generate_nonce` with the operating system's random
/// source: twelve random bytes.
#[verifier::external_body]
fn random_nonce() -> (r: Vec<u8>)
    ensures
        r@.len() == NONCE_SIZE,
{
    aes_gcm::Aes256Gcm::generate_nonce(&mut OsRng).to_vec()
}

/// Relies on `Aead::encrypt` of `aes_gcm::Aes256Gcm`: it fails exactly on a
/// plaintext longer than 2^36 bytes, and otherwise returns the ciphertext with
/// its 16-byte tag appended.
#[verifier::external_body]
fn seal(key: &[u8], nonce: &[u8], plaintext: &[u8]) -> (r: Result<Vec<u8>, aes_gcm::Error>)
    requires
        key@.len() == KEY_SIZE,
        nonce@.len() == NONCE_SIZE,
    ensures
        r is Ok <==> plaintext@.len() <= MAX_PLAINTEXT,
        r matches Ok(c) ==> c@ == aes256gcm_seal(key@, nonce@, plaintext@) && c@.len()
            == plaintext@.len() + 16,
{
    let cipher = aes_gcm::Aes256Gcm::new(aes_gcm::Key::<aes_gcm::Aes256Gcm>::from_slice(key));
    cipher.encrypt(aes_gcm::Nonce::from_slice(nonce), plaintext)
}

/// Relies on `Aead::decrypt` of `aes_gcm::Aes256Gcm`: the plaintext when the
/// tag authenticates the ciphertext, an error otherwise.
#[verifier::external_body]
fn open(key: &[u8], nonce: &[u8], ciphertext: &[u8]) -> (r: Result<Vec<u8>, aes_gcm::Error>)
    requires
        key@.len() == KEY_SIZE,
        nonce@.len() == NONCE_SIZE,
    ensures
        r is Ok <==> aes256gcm_open(key@, nonce@, ciphertext@) is Some,
        r matches Ok(p) ==> aes256gcm_open(key@, nonce@, ciphertext@) == Some(p@),
{
    let cipher = aes_gcm::Aes256Gcm::new(aes_gcm::Key::<aes_gcm::Aes256Gcm>::from_slice(key));
    cipher.decrypt(aes_gcm::Nonce::from_slice(nonce), ciphertext)
}

/// Relies on `String::from_utf8`: it accepts exactly valid UTF-8 and keeps
/// the characters that the bytes encode.
#[verifier::external_body]
fn utf8_string(bytes: Vec<u8>) -> (r: Result<String, std::string::FromUtf8Error>)
    ensures
        r is Ok <==> vstd::utf8::valid_utf8(bytes@),
        r matches Ok(s) ==> s@ == vstd::utf8::decode_utf8(bytes@),
{
    String::from_utf8(bytes)
}

/// Why encryption or decryption failed.
#[derive(Debug, Clone, Copy, PartialEq, Eq, Structural)]
pub enum CryptoError {
    /// The key is not 32 bytes long.
    InvalidKeyLength,
    /// The plaintext is too long to encrypt.
    PlaintextTooLong,
    /// The input is shorter than a nonce.
    TooShort,
    /// The tag does not authenticate the ciphertext.
    DecryptionFailed,
    /// The plaintext is not UTF-8.
    InvalidUtf8,
}

/// Authenticated encryption of at-rest copies under one 32-byte key.
pub struct SecurityHandler {
    encryption_key: Vec<u8>,
}

impl SecurityHandler {
    #[verifier::type_invariant]
    spec fn key_fits(&self) -> bool {
        self.encryption_key@.len() == KEY_SIZE
    }

    /// The key's bytes.
    pub closed spec fn key(&self) -> Seq<u8> {
        self.encryption_key@
    }

    /// A handler for the key whose bytes are those of `encryption_key`, which
    /// must be 32 bytes long.
    pub fn new(encryption_key: &str) -> (r: Result<SecurityHandler, CryptoError>)
        ensures
            encryption_key.spec_bytes().len() == KEY_SIZE <==> r is Ok,
            r matches Ok(h) ==> h.key() == encryption_key.spec_bytes(),
            r matches Err(e) ==> e == CryptoError::InvalidKeyLength,
    {
        let bytes = encryption_key.as_bytes();
        if bytes.len() != KEY_SIZE {
            return Err(CryptoError::InvalidKeyLength);
        }
        Ok(SecurityHandler { encryption_key: vstd::slice::slice_to_vec(bytes) })
    }

    /// A fresh random nonce followed by the ciphertext of `content`, tag
    /// appended.
    pub fn encrypt(&self, content: &str) -> (r: Result<Vec<u8>, CryptoError>)
        ensures
            r is Ok <==> content.spec_bytes().len() <= MAX_PLAINTEXT,
            r matches Ok(v) ==> v@.len() == NONCE_SIZE + content.spec_bytes().len() + 16
                && v@.subrange(NONCE_SIZE as int, v@.len() as int) == aes256gcm_seal(
                self.key(),
                v@.subrange(0, NONCE_SIZE as int),
                content.spec_bytes(),
            ),
            r matches Err(e) ==> e == CryptoError::PlaintextTooLong,
    {
        proof {
            use_type_invariant(self);
        }
        let nonce = random_nonce();
        match seal(self.encryption_key.as_slice(), nonce.as_slice(), content.as_bytes()) {
            Ok(ciphertext) => {
                let mut encrypted = nonce;
                let mut tail = ciphertext;
                let ghost n = encrypted@;
                let ghost c = tail@;
                encrypted.append(&mut tail);
                assert(encrypted@.subrange(0, NONCE_SIZE as int) =~= n);
                assert(encrypted@.subrange(NONCE_SIZE as int, encrypted@.len() as int) =~= c);
                Ok(encrypted)
            },
            Err(_) => Err(CryptoError::PlaintextTooLong),
        }
    }

    /// The text that `content`, a nonce followed by a ciphertext with its tag,
    /// decrypts to.
    pub fn decrypt(&self, content: Vec<u8>) -> (r: Result<String, CryptoError>)
        ensures
            content@.len() < NONCE_SIZE ==> r == Err::<String, CryptoError>(CryptoError::TooShort),
            content@.len() >= NONCE_SIZE ==> ({
                let opened = aes256gcm_open(
                    self.key(),
                    content@.subrange(0, NONCE_SIZE as int),
                    content@.subrange(NONCE_SIZE as int, content@.len() as int),
                );
                match opened {
                    None => r == Err::<String, CryptoError>(CryptoError::DecryptionFailed),
                    Some(p) => if vstd::utf8::valid_utf8(p) {
                        r matches Ok(s) && s@ == vstd::utf8::decode_utf8(p)
                    } else {
                        r == Err::<String, CryptoError>(CryptoError::InvalidUtf8)
                    },
                }
            }),
    {
        proof {
            use_type_invariant(self);
        }
        if content.len() < NONCE_SIZE {
            return Err(CryptoError::TooShort);
        }
        let nonce = vstd::slice::slice_subrange(content.as_slice(), 0, NONCE_SIZE);
        let ciphertext = vstd::slice::slice_subrange(content.as_slice(), NONCE_SIZE, content.len());
        let plaintext = match open(self.encryption_key.as_slice(), nonce, ciphertext) {
            Ok(p) => p,
            Err(_) => {
                return Err(CryptoError::DecryptionFailed);
            },
        };
        match utf8_string(plaintext) {
            Ok(s) => Ok(s),
            Err(_) => Err(CryptoError::InvalidUtf8),
        }
    }
}

} // verus!
