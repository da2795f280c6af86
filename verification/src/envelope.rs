//! The envelope: a payload sealed under a fresh key, the key split into
//! share tokens, and the way back.
//!
//! A container is the nonce followed by the ciphertext and its tag.

use crate::crypto::{
    aes256_gcm_open, aes256_gcm_seal, decrypt_data, encrypt_data, wipe_bytes, CryptoError,
    EncryptedData, EncryptionKey, KEY_LEN, NONCE_LEN, SEAL_MAX, TAG_LEN,
};
use crate::sss::{
    is_dealt_tokens, reconstruct_secret, reconstruct_secret_outcome, split_secret, texts,
    SSSError,
};
use vstd::prelude::*;

verus! {

/// Why an envelope was not made or not opened.
#[derive(Debug, Clone, Copy, PartialEq, Eq, Structural)]
pub enum EnvelopeError {
    InvalidThreshold,
    ShareGenerationFailed,
    InvalidShareFormat,
    InsufficientShares,
    ReconstructionFailed,
    InvalidContainerFormat,
    AuthenticationFailed,
    EncryptionFailed,
    InvalidKeyLength,
}

impl EnvelopeError {
    /// The text of the error.
    pub open spec fn text(self) -> Seq<char> {
        match self {
            EnvelopeError::InvalidThreshold => SSSError::InvalidThreshold.text(),
            EnvelopeError::ShareGenerationFailed => SSSError::ShareGenerationFailed.text(),
            EnvelopeError::InvalidShareFormat => SSSError::InvalidShareFormat.text(),
            EnvelopeError::InsufficientShares => SSSError::InsufficientShares.text(),
            EnvelopeError::ReconstructionFailed => SSSError::ReconstructionFailed.text(),
            EnvelopeError::InvalidContainerFormat => "Invalid encrypted file format"@,
            EnvelopeError::AuthenticationFailed => CryptoError::DecryptionFailed.text(),
            EnvelopeError::EncryptionFailed => CryptoError::EncryptionFailed.text(),
            EnvelopeError::InvalidKeyLength => CryptoError::InvalidKeyLength.text(),
        }
    }

    /// The text of the error.
    pub fn message(&self) -> (text: &'static str)
        ensures
            text@ == self.text(),
    {
        match self {
            EnvelopeError::InvalidThreshold => SSSError::InvalidThreshold.message(),
            EnvelopeError::ShareGenerationFailed => SSSError::ShareGenerationFailed.message(),
            EnvelopeError::InvalidShareFormat => SSSError::InvalidShareFormat.message(),
            EnvelopeError::InsufficientShares => SSSError::InsufficientShares.message(),
            EnvelopeError::ReconstructionFailed => SSSError::ReconstructionFailed.message(),
            EnvelopeError::InvalidContainerFormat => "Invalid encrypted file format",
            EnvelopeError::AuthenticationFailed => CryptoError::DecryptionFailed.message(),
            EnvelopeError::EncryptionFailed => CryptoError::EncryptionFailed.message(),
            EnvelopeError::InvalidKeyLength => CryptoError::InvalidKeyLength.message(),
        }
    }
}

impl EnvelopeError {
    /// The step at which the error arises, as it is named to the user; a
    /// malformed container is reported by its text alone.
    pub open spec fn stage(self) -> Seq<char> {
        match self {
            EnvelopeError::InvalidThreshold => "Failed to generate shares"@,
            EnvelopeError::ShareGenerationFailed => "Failed to generate shares"@,
            EnvelopeError::InvalidShareFormat => "Failed to reconstruct key"@,
            EnvelopeError::InsufficientShares => "Failed to reconstruct key"@,
            EnvelopeError::ReconstructionFailed => "Failed to reconstruct key"@,
            EnvelopeError::InvalidContainerFormat => ""@,
            EnvelopeError::AuthenticationFailed => "Decryption failed"@,
            EnvelopeError::EncryptionFailed => "Encryption failed"@,
            EnvelopeError::InvalidKeyLength => "Invalid key"@,
        }
    }

    /// The line shown to the user: the step, a colon and the error's text.
    pub open spec fn report_text(self) -> Seq<char> {
        if self == EnvelopeError::InvalidContainerFormat {
            self.text()
        } else {
            self.stage() + ": "@ + self.text()
        }
    }

    /// The line shown to the user for this error.
    pub fn report(&self) -> (line: String)
        ensures
            line@ == self.report_text(),
    {
        let stage = match self {
            EnvelopeError::InvalidThreshold => "Failed to generate shares",
            EnvelopeError::ShareGenerationFailed => "Failed to generate shares",
            EnvelopeError::InvalidShareFormat => "Failed to reconstruct key",
            EnvelopeError::InsufficientShares => "Failed to reconstruct key",
            EnvelopeError::ReconstructionFailed => "Failed to reconstruct key",
            EnvelopeError::InvalidContainerFormat => {
                return String::from_str(self.message());
            },
            EnvelopeError::AuthenticationFailed => "Decryption failed",
            EnvelopeError::EncryptionFailed => "Encryption failed",
            EnvelopeError::InvalidKeyLength => "Invalid key",
        };
        String::from_str(stage).concat(": ").concat(self.message())
    }
}

/// The envelope's error for an error of the sharing.
pub open spec fn sharing_error(e: SSSError) -> EnvelopeError {
    match e {
        SSSError::InvalidThreshold => EnvelopeError::InvalidThreshold,
        SSSError::ShareGenerationFailed => EnvelopeError::ShareGenerationFailed,
        SSSError::ReconstructionFailed => EnvelopeError::ReconstructionFailed,
        SSSError::InvalidShareFormat => EnvelopeError::InvalidShareFormat,
        SSSError::InsufficientShares => EnvelopeError::InsufficientShares,
    }
}

/// The envelope's error for an error of the cipher.
pub open spec fn cipher_error(e: CryptoError) -> EnvelopeError {
    match e {
        CryptoError::EncryptionFailed => EnvelopeError::EncryptionFailed,
        CryptoError::DecryptionFailed => EnvelopeError::AuthenticationFailed,
        CryptoError::InvalidKeyLength => EnvelopeError::InvalidKeyLength,
    }
}

/// `container` holds `plaintext` sealed under `key` with some nonce, and
/// opens to it.
pub open spec fn is_container(key: Seq<u8>, plaintext: Seq<u8>, container: Seq<u8>) -> bool {
    exists|nonce: Seq<u8>|
        nonce.len() == NONCE_LEN && #[trigger] aes256_gcm_open(
            key,
            nonce,
            aes256_gcm_seal(key, nonce, plaintext),
        ) == Some(plaintext) && container == nonce + aes256_gcm_seal(key, nonce, plaintext)
}

/// The error, if any, with which sealing a payload of `len` bytes and
/// splitting the key with threshold `k` of `n` is refused.
pub open spec fn encrypt_refusal(len: nat, k: u8, n: u8) -> Option<EnvelopeError> {
    if len > SEAL_MAX {
        Some(EnvelopeError::EncryptionFailed)
    } else if !(1 <= k <= n) {
        Some(EnvelopeError::InvalidThreshold)
    } else {
        None
    }
}

/// What opening `container` with the tokens `tokens` gives.
pub open spec fn decrypt_outcome(container: Seq<u8>, tokens: Seq<Seq<char>>) -> Result<
    Seq<u8>,
    EnvelopeError,
> {
    if container.len() < NONCE_LEN {
        Err(EnvelopeError::InvalidContainerFormat)
    } else {
        match reconstruct_secret_outcome(tokens) {
            Err(e) => Err(sharing_error(e)),
            Ok(key) => if key.len() != KEY_LEN {
                Err(EnvelopeError::InvalidKeyLength)
            } else {
                match aes256_gcm_open(
                    key,
                    container.take(NONCE_LEN as int),
                    container.skip(NONCE_LEN as int),
                ) {
                    Some(plaintext) => Ok(plaintext),
                    None => Err(EnvelopeError::AuthenticationFailed),
                }
            },
        }
    }
}

/// A result with its bytes as a sequence.
pub open spec fn payload_view(out: Result<Vec<u8>, EnvelopeError>) -> Result<
    Seq<u8>,
    EnvelopeError,
> {
    match out {
        Ok(bytes) => Ok(bytes@),
        Err(e) => Err(e),
    }
}

/// The envelope's error for an error of the sharing.
pub fn from_sharing_error(e: SSSError) -> (out: EnvelopeError)
    ensures
        out == sharing_error(e),
{
    match e {
        SSSError::InvalidThreshold => EnvelopeError::InvalidThreshold,
        SSSError::ShareGenerationFailed => EnvelopeError::ShareGenerationFailed,
        SSSError::ReconstructionFailed => EnvelopeError::ReconstructionFailed,
        SSSError::InvalidShareFormat => EnvelopeError::InvalidShareFormat,
        SSSError::InsufficientShares => EnvelopeError::InsufficientShares,
    }
}

/// The envelope's error for an error of the cipher.
pub fn from_cipher_error(e: CryptoError) -> (out: EnvelopeError)
    ensures
        out == cipher_error(e),
{
    match e {
        CryptoError::EncryptionFailed => EnvelopeError::EncryptionFailed,
        CryptoError::DecryptionFailed => EnvelopeError::AuthenticationFailed,
        CryptoError::InvalidKeyLength => EnvelopeError::InvalidKeyLength,
    }
}

/// The container of a sealed payload: its nonce, then its ciphertext and
/// tag.
pub fn assemble_container(sealed: &EncryptedData) -> (container: Vec<u8>)
    ensures
        container@ == sealed.nonce@ + sealed.ciphertext@,
{
    let mut container: Vec<u8> = Vec::new();
    let mut i: usize = 0;
    while i < 12
        invariant
            i <= 12,
            container@ == sealed.nonce@.take(i as int),
        decreases 12 - i,
    {
        container.push(sealed.nonce[i]);
        i += 1;
    }
    assert(sealed.nonce@.take(12) == sealed.nonce@);
    let mut j: usize = 0;
    while j < sealed.ciphertext.len()
        invariant
            j <= sealed.ciphertext@.len(),
            container@ == sealed.nonce@ + sealed.ciphertext@.take(j as int),
        decreases sealed.ciphertext@.len() - j,
    {
        container.push(sealed.ciphertext[j]);
        j += 1;
    }
    assert(sealed.ciphertext@.take(j as int) == sealed.ciphertext@);
    container
}

/// The sealed payload of a container: the first twelve bytes are the nonce,
/// the rest the ciphertext and tag. A shorter container is refused.
pub fn parse_container(container: &[u8]) -> (out: Result<EncryptedData, EnvelopeError>)
    ensures
        out is Ok <==> container@.len() >= NONCE_LEN,
        out is Err ==> out->Err_0 == EnvelopeError::InvalidContainerFormat,
        out is Ok ==> out->Ok_0.nonce@ == container@.take(NONCE_LEN as int),
        out is Ok ==> out->Ok_0.ciphertext@ == container@.skip(NONCE_LEN as int),
{
    if container.len() < 12 {
        return Err(EnvelopeError::InvalidContainerFormat);
    }
    let mut nonce: [u8; 12] = [0u8; 12];
    let mut i: usize = 0;
    while i < 12
        invariant
            i <= 12,
            container@.len() >= 12,
            forall|a: int| 0 <= a < i ==> nonce@[a] == container@[a],
        decreases 12 - i,
    {
        nonce[i] = container[i];
        i += 1;
    }
    let mut ciphertext: Vec<u8> = Vec::new();
    let mut j: usize = 12;
    while j < container.len()
        invariant
            12 <= j <= container@.len(),
            ciphertext@ == container@.subrange(12, j as int),
        decreases container@.len() - j,
    {
        ciphertext.push(container[j]);
        j += 1;
    }
    assert(nonce@ == container@.take(12));
    assert(ciphertext@ == container@.skip(12));
    Ok(EncryptedData { nonce, ciphertext })
}

/// Seals `plaintext` under `key` and splits the key into `n` tokens of which
/// any `k` recover it. The payload is sealed first: a payload that is too
/// long is reported before a bad threshold.
pub fn encrypt_with_key(plaintext: &[u8], key: &EncryptionKey, k: u8, n: u8) -> (out: Result<
    (Vec<u8>, Vec<String>),
    EnvelopeError,
>)
    ensures
        out is Ok <==> encrypt_refusal(plaintext@.len(), k, n) is None,
        out is Err ==> encrypt_refusal(plaintext@.len(), k, n) == Some(out->Err_0),
        out is Ok ==> is_container(key@, plaintext@, out->Ok_0.0@),
        out is Ok ==> out->Ok_0.0@.len() == NONCE_LEN + plaintext@.len() + TAG_LEN,
        out is Ok ==> is_dealt_tokens(key@, k, n, texts(out->Ok_0.1@)),
{
    let sealed = match encrypt_data(plaintext, key) {
        Ok(sealed) => sealed,
        Err(e) => {
            return Err(from_cipher_error(e));
        },
    };
    let tokens = match split_secret(key.as_bytes(), k, n) {
        Ok(tokens) => tokens,
        Err(e) => {
            return Err(from_sharing_error(e));
        },
    };
    let container = assemble_container(&sealed);
    assert(is_container(key@, plaintext@, container@)) by {
        let nonce = sealed.nonce@;
        assert(aes256_gcm_open(key@, nonce, aes256_gcm_seal(key@, nonce, plaintext@)) == Some(
            plaintext@,
        ));
    }
    Ok((container, tokens))
}

/// Seals `plaintext` under a key drawn for this call and splits that key
/// into `n` tokens of which any `k` recover it. The key itself is wiped
/// before the call returns.
pub fn encrypt(plaintext: &[u8], k: u8, n: u8) -> (out: Result<
    (Vec<u8>, Vec<String>),
    EnvelopeError,
>)
    ensures
        out is Ok <==> encrypt_refusal(plaintext@.len(), k, n) is None,
        out is Err ==> encrypt_refusal(plaintext@.len(), k, n) == Some(out->Err_0),
        out is Ok ==> out->Ok_0.0@.len() == NONCE_LEN + plaintext@.len() + TAG_LEN,
        out is Ok ==> exists|key: Seq<u8>|
            key.len() == KEY_LEN && is_container(key, plaintext@, out->Ok_0.0@)
                && #[trigger] is_dealt_tokens(key, k, n, texts(out->Ok_0.1@)),
{
    let key = EncryptionKey::generate();
    let out = encrypt_with_key(plaintext, &key, k, n);
    proof {
        key.lemma_key_len();
        if out is Ok {
            assert(is_dealt_tokens(key@, k, n, texts(out->Ok_0.1@)));
        }
    }
    out
}

/// Opens `container` with the key that `tokens` reconstruct. The bytes of
/// the reconstructed key are wiped before the call returns.
pub fn decrypt(container: &[u8], tokens: &[String]) -> (out: Result<Vec<u8>, EnvelopeError>)
    ensures
        payload_view(out) == decrypt_outcome(container@, texts(tokens@)),
{
    let sealed = match parse_container(container) {
        Ok(sealed) => sealed,
        Err(e) => {
            return Err(e);
        },
    };
    let mut key_bytes = match reconstruct_secret(tokens) {
        Ok(bytes) => bytes,
        Err(e) => {
            return Err(from_sharing_error(e));
        },
    };
    let made = EncryptionKey::from_bytes(key_bytes.as_slice());
    wipe_bytes(&mut key_bytes);
    let key = match made {
        Ok(key) => key,
        Err(e) => {
            return Err(from_cipher_error(e));
        },
    };
    match decrypt_data(&sealed, &key) {
        Ok(plaintext) => Ok(plaintext),
        Err(e) => Err(from_cipher_error(e)),
    }
}

/// The name of the container file for a file of the given stem; without a
/// stem, `encrypted` stands for it.
pub open spec fn container_name(stem: Option<Seq<char>>) -> Seq<char> {
    match stem {
        Some(stem) => stem + ".cryptit"@,
        None => "encrypted"@ + ".cryptit"@,
    }
}

/// `text` ends with `suffix`.
pub open spec fn ends_with(text: Seq<char>, suffix: Seq<char>) -> bool {
    text.len() >= suffix.len() && text.skip(text.len() - suffix.len()) == suffix
}

/// The name of the file that a container of the given stem opens to: the
/// stem, without a trailing `.cryptit`, and `_decrypted.txt`; without a stem,
/// `decrypted` stands for it.
pub open spec fn opened_name(stem: Option<Seq<char>>) -> Seq<char> {
    match stem {
        Some(stem) => if ends_with(stem, ".cryptit"@) {
            stem.take(stem.len() - ".cryptit"@.len()) + "_decrypted.txt"@
        } else {
            stem + "_decrypted.txt"@
        },
        None => "decrypted"@ + "_decrypted.txt"@,
    }
}

/// The name of the container file for a file of the given stem.
pub fn container_file_name(stem: Option<&str>) -> (name: String)
    ensures
        name@ == container_name(
            match stem {
                Some(stem) => Some(stem@),
                None => None,
            },
        ),
{
    let base = match stem {
        Some(stem) => stem,
        None => "encrypted",
    };
    String::from_str(base).concat(".cryptit")
}

/// Whether `text` ends with `suffix`.
pub fn has_suffix(text: &str, suffix: &str) -> (out: bool)
    ensures
        out == ends_with(text@, suffix@),
{
    let n = text.unicode_len();
    let m = suffix.unicode_len();
    if n < m {
        return false;
    }
    let start = n - m;
    let mut i: usize = 0;
    while i < m
        invariant
            i <= m,
            n == text@.len(),
            m == suffix@.len(),
            start == n - m,
            forall|j: int| 0 <= j < i ==> text@[start + j] == suffix@[j],
        decreases m - i,
    {
        if text.get_char(start + i) != suffix.get_char(i) {
            assert(text@.skip(start as int)[i as int] != suffix@[i as int]);
            return false;
        }
        i += 1;
    }
    assert(text@.skip(start as int) =~= suffix@);
    true
}

/// The name of the file that a container of the given stem opens to.
pub fn opened_file_name(stem: Option<&str>) -> (name: String)
    ensures
        name@ == opened_name(
            match stem {
                Some(stem) => Some(stem@),
                None => None,
            },
        ),
{
    let base = match stem {
        Some(stem) => stem,
        None => {
            return String::from_str("decrypted").concat("_decrypted.txt");
        },
    };
    if has_suffix(base, ".cryptit") {
        let n = base.unicode_len();
        let m = ".cryptit".unicode_len();
        let clean = base.substring_char(0, n - m);
        assert(clean@ == base@.take(base@.len() - ".cryptit"@.len()));
        String::from_str(clean).concat("_decrypted.txt")
    } else {
        String::from_str(base).concat("_decrypted.txt")
    }
}

} // verus!
