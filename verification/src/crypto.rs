//! Sealing of a payload under a 256-bit key with AES-256-GCM, and the key
//! itself, which is wiped when it goes out of scope.

use vstd::prelude::*;

verus! {

/// Why sealing, opening or the making of a key was refused.
#[derive(Debug, Clone, Copy, PartialEq, Eq, Structural)]
pub enum CryptoError {
    EncryptionFailed,
    DecryptionFailed,
    InvalidKeyLength,
}

impl CryptoError {
    /// The text of the error.
    pub open spec fn text(self) -> Seq<char> {
        match self {
            CryptoError::EncryptionFailed => "Encryption failed"@,
            CryptoError::DecryptionFailed => "Decryption failed"@,
            CryptoError::InvalidKeyLength => "Invalid key length"@,
        }
    }

    /// The text of the error.
    pub fn message(&self) -> (text: &'static str)
        ensures
            text@ == self.text(),
    {
        match self {
            CryptoError::EncryptionFailed => "Encryption failed",
            CryptoError::DecryptionFailed => "Decryption failed",
            CryptoError::InvalidKeyLength => "Invalid key length",
        }
    }
}

/// Number of bytes of a key.
pub const KEY_LEN: usize = 32;

/// Number of bytes of a nonce.
pub const NONCE_LEN: usize = 12;

/// Number of bytes of the authentication tag that follows a ciphertext.
pub const TAG_LEN: usize = 16;

/// Largest payload, in bytes, that the cipher seals.
pub const SEAL_MAX: u64 = 0x10_0000_0000;

/// The AES-256-GCM ciphertext of `plaintext` under `key` and `nonce`, without
/// associated data, followed by its tag.
pub uninterp spec fn aes256_gcm_seal(key: Seq<u8>, nonce: Seq<u8>, plaintext: Seq<u8>) -> Seq<u8>;

/// The payload of `sealed` under `key` and `nonce`, if its tag is the right
/// one.
pub uninterp spec fn aes256_gcm_open(key: Seq<u8>, nonce: Seq<u8>, sealed: Seq<u8>) -> Option<
    Seq<u8>,
>;

/// The error of the cipher, which tells nothing of its cause.
#[verifier::external_type_specification]
#[verifier::external_body]
pub struct ExAeadError(aes_gcm::Error);

/// `aes_gcm::aead::Aead::encrypt` on an `Aes256Gcm` made from `key`: it fails
/// exactly on a payload longer than the cipher's limit; otherwise the result
/// is the ciphertext with its tag, 16 bytes longer than the payload, and
/// opening it under the same key and nonce gives the payload back.
#[verifier::external_body]
fn aes_seal(key: &[u8; 32], nonce: &[u8; 12], plaintext: &[u8]) -> (out: Result<
    Vec<u8>,
    aes_gcm::Error,
>)
    ensures
        out is Ok <==> plaintext@.len() <= SEAL_MAX,
        out is Ok ==> out->Ok_0@ == aes256_gcm_seal(key@, nonce@, plaintext@),
        out is Ok ==> out->Ok_0@.len() == plaintext@.len() + TAG_LEN,
        out is Ok ==> aes256_gcm_open(key@, nonce@, out->Ok_0@) == Some(plaintext@),
{
    let cipher = <aes_gcm::Aes256Gcm as aes_gcm::KeyInit>::new(key.into());
    aes_gcm::aead::Aead::encrypt(&cipher, nonce.into(), plaintext)
}

/// `aes_gcm::aead::Aead::decrypt` on an `Aes256Gcm` made from `key`: the
/// payload where the tag verifies, an error otherwise.
#[verifier::external_body]
fn aes_open(key: &[u8; 32], nonce: &[u8; 12], sealed: &[u8]) -> (out: Result<
    Vec<u8>,
    aes_gcm::Error,
>)
    ensures
        out is Ok <==> aes256_gcm_open(key@, nonce@, sealed@) is Some,
        out is Ok ==> aes256_gcm_open(key@, nonce@, sealed@) == Some(out->Ok_0@),
{
    let cipher = <aes_gcm::Aes256Gcm as aes_gcm::KeyInit>::new(key.into());
    aes_gcm::aead::Aead::decrypt(&cipher, nonce.into(), sealed)
}

/// `aes_gcm::AeadCore::generate_nonce` for `Aes256Gcm` on the system's
/// random source: twelve bytes of which nothing is known.
#[verifier::external_body]
fn fresh_nonce() -> (nonce: [u8; 12]) {
    let drawn = <aes_gcm::Aes256Gcm as aes_gcm::AeadCore>::generate_nonce(
        &mut aes_gcm::aead::OsRng,
    );
    drawn.into()
}

/// `rand::RngCore::fill_bytes` on the system's random source: thirty-two
/// bytes of which nothing is known.
#[verifier::external_body]
fn fresh_key_bytes() -> (key: [u8; 32]) {
    let mut key = [0u8; 32];
    rand::RngCore::fill_bytes(&mut aes_gcm::aead::OsRng, &mut key);
    key
}

/// `zeroize::Zeroize::zeroize` on an array of bytes: every byte is zero
/// afterwards.
#[verifier::external_body]
fn wipe_array(bytes: &mut [u8; 32])
    ensures
        forall|i: int| 0 <= i < 32 ==> final(bytes)@[i] == 0,
    opens_invariants none
    no_unwind
{
    zeroize::Zeroize::zeroize(bytes);
}

/// `zeroize::Zeroize::zeroize` on a vector of bytes: its bytes are
/// overwritten and it is empty afterwards.
#[verifier::external_body]
fn wipe_vec(bytes: &mut Vec<u8>)
    ensures
        final(bytes)@.len() == 0,
{
    zeroize::Zeroize::zeroize(bytes);
}

/// A 256-bit key. Its bytes are overwritten with zeros when it is dropped.
pub struct EncryptionKey {
    key: [u8; 32],
}

impl Drop for EncryptionKey {
    fn drop(&mut self)
        ensures
            forall|i: int| 0 <= i < KEY_LEN ==> final(self)@[i] == 0,
        opens_invariants none
        no_unwind
    {
        self.wipe();
    }
}

/// A sealed payload: the nonce it was sealed with, and the ciphertext
/// followed by its tag.
pub struct EncryptedData {
    pub nonce: [u8; 12],
    pub ciphertext: Vec<u8>,
}

impl View for EncryptionKey {
    type V = Seq<u8>;

    closed spec fn view(&self) -> Seq<u8> {
        self.key@
    }
}

impl EncryptionKey {
    /// A key has thirty-two bytes.
    pub broadcast proof fn lemma_key_len(&self)
        ensures
            #[trigger] self@.len() == KEY_LEN,
    {
    }

    /// Overwrites the bytes of the key with zeros.
    pub fn wipe(&mut self)
        ensures
            forall|i: int| 0 <= i < KEY_LEN ==> final(self)@[i] == 0,
        opens_invariants none
        no_unwind
    {
        wipe_array(&mut self.key);
    }

    /// A key drawn from the system's random source.
    pub fn generate() -> (key: EncryptionKey)
        ensures
            key@.len() == KEY_LEN,
    {
        EncryptionKey { key: fresh_key_bytes() }
    }

    /// The key with the given bytes, of which there must be thirty-two.
    pub fn from_bytes(bytes: &[u8]) -> (out: Result<EncryptionKey, CryptoError>)
        ensures
            out is Ok <==> bytes@.len() == KEY_LEN,
            out is Ok ==> out->Ok_0@ == bytes@,
            out is Err ==> out->Err_0 == CryptoError::InvalidKeyLength,
    {
        if bytes.len() != 32 {
            return Err(CryptoError::InvalidKeyLength);
        }
        let mut key: [u8; 32] = [0u8; 32];
        let mut i: usize = 0;
        while i < 32
            invariant
                i <= 32,
                bytes@.len() == 32,
                forall|j: int| 0 <= j < i ==> key@[j] == bytes@[j],
            decreases 32 - i,
        {
            key[i] = bytes[i];
            i += 1;
        }
        assert(key@ == bytes@);
        Ok(EncryptionKey { key })
    }

    /// The bytes of the key.
    pub fn as_bytes(&self) -> (bytes: &[u8])
        ensures
            bytes@ == self@,
            bytes@.len() == KEY_LEN,
    {
        self.key.as_slice()
    }
}

/// Overwrites key material held in a vector, and empties the vector.
pub fn wipe_bytes(bytes: &mut Vec<u8>)
    ensures
        final(bytes)@.len() == 0,
{
    wipe_vec(bytes);
}

/// Seals `data` under `key` with the given nonce.
pub fn seal_with_nonce(data: &[u8], key: &EncryptionKey, nonce: [u8; 12]) -> (out: Result<
    EncryptedData,
    CryptoError,
>)
    ensures
        out is Ok <==> data@.len() <= SEAL_MAX,
        out is Err ==> out->Err_0 == CryptoError::EncryptionFailed,
        out is Ok ==> out->Ok_0.nonce == nonce,
        out is Ok ==> out->Ok_0.ciphertext@ == aes256_gcm_seal(key@, nonce@, data@),
        out is Ok ==> out->Ok_0.ciphertext@.len() == data@.len() + TAG_LEN,
        out is Ok ==> aes256_gcm_open(key@, nonce@, out->Ok_0.ciphertext@) == Some(data@),
{
    match aes_seal(&key.key, &nonce, data) {
        Ok(ciphertext) => Ok(EncryptedData { nonce, ciphertext }),
        Err(_) => Err(CryptoError::EncryptionFailed),
    }
}

/// Seals `data` under `key` with a nonce drawn for this call.
pub fn encrypt_data(data: &[u8], key: &EncryptionKey) -> (out: Result<EncryptedData, CryptoError>)
    ensures
        out is Ok <==> data@.len() <= SEAL_MAX,
        out is Err ==> out->Err_0 == CryptoError::EncryptionFailed,
        out is Ok ==> out->Ok_0.ciphertext@ == aes256_gcm_seal(key@, out->Ok_0.nonce@, data@),
        out is Ok ==> out->Ok_0.ciphertext@.len() == data@.len() + TAG_LEN,
        out is Ok ==> aes256_gcm_open(key@, out->Ok_0.nonce@, out->Ok_0.ciphertext@) == Some(
            data@,
        ),
{
    let nonce = fresh_nonce();
    seal_with_nonce(data, key, nonce)
}

/// Opens a sealed payload under `key`. A wrong key and a changed nonce,
/// ciphertext or tag all give the same error.
pub fn decrypt_data(encrypted_data: &EncryptedData, key: &EncryptionKey) -> (out: Result<
    Vec<u8>,
    CryptoError,
>)
    ensures
        out is Ok <==> aes256_gcm_open(
            key@,
            encrypted_data.nonce@,
            encrypted_data.ciphertext@,
        ) is Some,
        out is Err ==> out->Err_0 == CryptoError::DecryptionFailed,
        out is Ok ==> aes256_gcm_open(key@, encrypted_data.nonce@, encrypted_data.ciphertext@)
            == Some(out->Ok_0@),
{
    match aes_open(&key.key, &encrypted_data.nonce, encrypted_data.ciphertext.as_slice()) {
        Ok(plaintext) => Ok(plaintext),
        Err(_) => Err(CryptoError::DecryptionFailed),
    }
}

} // verus!
