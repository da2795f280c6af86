//! Shamir's secret sharing of a byte string: splitting into shares, the text
//! form of a share, and reconstruction.

use crate::scheme::{
    distinct_indices, interpolate, is_dealing, is_dealt, recoverable, same_length,
};
use vstd::prelude::*;

verus! {

/// Why a split or a reconstruction was refused.
#[derive(Debug, Clone, Copy, PartialEq, Eq, Structural)]
pub enum SSSError {
    InvalidThreshold,
    ShareGenerationFailed,
    ReconstructionFailed,
    InvalidShareFormat,
    InsufficientShares,
}

impl SSSError {
    /// The text of the error.
    pub open spec fn text(self) -> Seq<char> {
        match self {
            SSSError::InvalidThreshold => "Invalid threshold: k must be <= n and both must be > 0"@,
            SSSError::ShareGenerationFailed => "Failed to generate shares"@,
            SSSError::ReconstructionFailed => "Failed to reconstruct secret"@,
            SSSError::InvalidShareFormat => "Invalid share format"@,
            SSSError::InsufficientShares => "Insufficient shares provided"@,
        }
    }

    /// The text of the error.
    pub fn message(&self) -> (text: &'static str)
        ensures
            text@ == self.text(),
    {
        match self {
            SSSError::InvalidThreshold => "Invalid threshold: k must be <= n and both must be > 0",
            SSSError::ShareGenerationFailed => "Failed to generate shares",
            SSSError::ReconstructionFailed => "Failed to reconstruct secret",
            SSSError::InvalidShareFormat => "Invalid share format",
            SSSError::InsufficientShares => "Insufficient shares provided",
        }
    }
}

/// One share: the point of evaluation and the value there of each secret
/// byte's polynomial.
#[derive(Debug, Clone, PartialEq, Eq)]
pub struct Share {
    pub index: u8,
    pub values: Vec<u8>,
}

/// The views of the byte vectors of `v`.
pub open spec fn rows_view(v: Seq<Vec<u8>>) -> Seq<Seq<u8>> {
    Seq::new(v.len(), |i: int| v[i]@)
}

/// The rows of `shares`.
pub open spec fn share_rows(shares: Seq<Share>) -> Seq<Seq<u8>> {
    Seq::new(shares.len(), |i: int| shares[i].row())
}

/// The standard base64 text, with padding, of a byte string.
pub uninterp spec fn base64_text(bytes: Seq<u8>) -> Seq<char>;

/// The bytes that a standard base64 text stands for, if it is well formed.
pub uninterp spec fn base64_bytes(text: Seq<char>) -> Option<Seq<u8>>;

/// Length of the padded base64 text of `n` bytes.
pub open spec fn base64_len(n: nat) -> nat {
    4 * ((n + 2) / 3)
}

/// `base64::Engine::encode` on the standard engine: the result is the
/// padded base64 text of the bytes, and that text decodes to the same bytes.
/// The call panics when the text's length overflows, which `requires` leaves
/// out.
#[verifier::external_body]
fn base64_encode(bytes: &[u8]) -> (text: String)
    requires
        base64_len(bytes@.len()) <= usize::MAX,
    ensures
        text@ == base64_text(bytes@),
        base64_bytes(text@) == Some(bytes@),
{
    base64::Engine::encode(&base64::engine::general_purpose::STANDARD, bytes)
}

/// The error of `base64`'s decoding, carried as it is.
#[verifier::external_type_specification]
#[verifier::external_body]
pub struct ExDecodeError(base64::DecodeError);

/// `base64::Engine::decode` on the standard engine: the bytes of a
/// well-formed text, an error for any other.
#[verifier::external_body]
fn base64_decode(text: &str) -> (out: Result<Vec<u8>, base64::DecodeError>)
    ensures
        match out {
            Ok(bytes) => base64_bytes(text@) == Some(bytes@),
            Err(_) => base64_bytes(text@) is None,
        },
{
    base64::Engine::decode(&base64::engine::general_purpose::STANDARD, text)
}

/// `shamirs::Sharks::dealer` with threshold `k`, the first `n` shares it
/// yields, each in its byte form (`Vec::from(&Share)`). The polynomials are
/// drawn at random, so the contract states what every outcome has: the shape
/// of a dealing.
#[verifier::external_body]
fn deal_rows(secret: &[u8], k: u8, n: u8) -> (rows: Vec<Vec<u8>>)
    requires
        k >= 1,
    ensures
        is_dealt(secret@, k, n, rows_view(rows@)),
{
    shamirs::Sharks(k).dealer(secret).take(n as usize).map(|s| Vec::<u8>::from(&s)).collect()
}

/// `shamirs::Sharks::recover` with threshold 1, on rows parsed by
/// `Share::try_from`: it succeeds exactly on a non-empty list of rows of one
/// length with pairwise distinct indices, and then returns the interpolation
/// at zero. A row shorter than two bytes does not parse, which `requires`
/// leaves out.
#[verifier::external_body]
fn recover_rows(rows: &Vec<Vec<u8>>) -> (out: Option<Vec<u8>>)
    requires
        forall|i: int| 0 <= i < rows@.len() ==> (#[trigger] rows@[i])@.len() >= 2,
    ensures
        out is Some <==> recoverable(rows_view(rows@)),
        out is Some ==> out->0@ == interpolate(rows_view(rows@)),
{
    let parsed: Vec<shamirs::Share> = rows.iter().map(
        |r| shamirs::Share::try_from(r.as_slice()).unwrap(),
    ).collect();
    match shamirs::Sharks(1).recover(&parsed) {
        Ok(secret) => Some(secret.to_vec()),
        Err(_) => None,
    }
}

impl Share {
    /// The byte form: the index, then the values.
    pub open spec fn row(&self) -> Seq<u8> {
        seq![self.index] + self.values@
    }

    /// The byte form of the share.
    pub fn to_bytes(&self) -> (bytes: Vec<u8>)
        ensures
            bytes@ == self.row(),
    {
        let mut bytes: Vec<u8> = Vec::new();
        bytes.push(self.index);
        let mut i: usize = 0;
        while i < self.values.len()
            invariant
                i <= self.values@.len(),
                bytes@ == seq![self.index] + self.values@.take(i as int),
            decreases self.values@.len() - i,
        {
            bytes.push(self.values[i]);
            i += 1;
            assert(self.values@.take(i as int) == self.values@.take(i - 1).push(
                self.values@[i - 1],
            ));
        }
        assert(self.values@.take(i as int) == self.values@);
        bytes
    }

    /// The share with the given byte form. At least the index byte must be
    /// there.
    pub fn from_bytes(bytes: &[u8]) -> (out: Result<Share, SSSError>)
        ensures
            bytes@.len() == 0 ==> out == Err::<Share, SSSError>(SSSError::InvalidShareFormat),
            bytes@.len() > 0 ==> out is Ok && out->Ok_0.row() == bytes@,
    {
        if bytes.len() == 0 {
            return Err(SSSError::InvalidShareFormat);
        }
        let mut values: Vec<u8> = Vec::new();
        let mut i: usize = 1;
        while i < bytes.len()
            invariant
                1 <= i <= bytes@.len(),
                values@ == bytes@.subrange(1, i as int),
            decreases bytes@.len() - i,
        {
            values.push(bytes[i]);
            i += 1;
        }
        let share = Share { index: bytes[0], values };
        assert(share.row() == bytes@);
        Ok(share)
    }
}

/// The texts of `tokens`.
pub open spec fn texts(tokens: Seq<String>) -> Seq<Seq<char>> {
    Seq::new(tokens.len(), |i: int| tokens[i]@)
}

/// The base64 text of each row.
pub open spec fn encoded_rows(rows: Seq<Seq<u8>>) -> Seq<Seq<char>> {
    Seq::new(rows.len(), |i: int| base64_text(rows[i]))
}

/// The row that a token stands for: its base64 content, if that is well
/// formed and holds at least the index byte.
pub open spec fn decoded_row(text: Seq<char>) -> Option<Seq<u8>> {
    match base64_bytes(text) {
        Some(bytes) => if bytes.len() > 0 {
            Some(bytes)
        } else {
            None
        },
        None => None,
    }
}

/// The rows that a list of tokens stands for, if every token decodes.
pub open spec fn decoded_rows(tokens: Seq<Seq<char>>) -> Option<Seq<Seq<u8>>> {
    if forall|i: int| 0 <= i < tokens.len() ==> decoded_row(#[trigger] tokens[i]) is Some {
        Some(Seq::new(tokens.len(), |i: int| decoded_row(tokens[i])->0))
    } else {
        None
    }
}

/// The parameters of a split are acceptable: the threshold is at least one
/// and at most the number of shares, and the secret is not empty.
pub open spec fn valid_split(secret_len: nat, k: u8, n: u8) -> bool {
    1 <= k <= n && secret_len > 0
}

/// `tokens` are the texts of the `n` shares of some dealing of `secret` with
/// threshold `k`, and decode to those shares.
pub open spec fn is_dealt_tokens(secret: Seq<u8>, k: u8, n: u8, tokens: Seq<Seq<char>>) -> bool {
    exists|rows: Seq<Seq<u8>>|
        is_dealt(secret, k, n, rows) && tokens == encoded_rows(rows) && #[trigger] decoded_rows(
            tokens,
        ) == Some(rows)
}

/// What reconstruction from `rows` gives.
pub open spec fn reconstruct_outcome(rows: Seq<Seq<u8>>) -> Result<Seq<u8>, SSSError> {
    if rows.len() == 0 {
        Err(SSSError::InsufficientShares)
    } else if !same_length(rows) || !distinct_indices(rows) {
        Err(SSSError::InvalidShareFormat)
    } else {
        Ok(interpolate(rows))
    }
}

/// What reconstruction from the tokens `tokens` gives.
pub open spec fn reconstruct_secret_outcome(tokens: Seq<Seq<char>>) -> Result<Seq<u8>, SSSError> {
    if tokens.len() == 0 {
        Err(SSSError::InsufficientShares)
    } else {
        match decoded_rows(tokens) {
            Some(rows) => reconstruct_outcome(rows),
            None => Err(SSSError::InvalidShareFormat),
        }
    }
}

/// A result with its bytes as a sequence.
pub open spec fn secret_view(out: Result<Vec<u8>, SSSError>) -> Result<Seq<u8>, SSSError> {
    match out {
        Ok(bytes) => Ok(bytes@),
        Err(e) => Err(e),
    }
}

/// The token of a share: the base64 text of its byte form.
pub fn encode_share(share: &Share) -> (token: String)
    requires
        base64_len(share.row().len()) <= usize::MAX,
    ensures
        token@ == base64_text(share.row()),
        decoded_row(token@) == Some(share.row()),
{
    let bytes = share.to_bytes();
    base64_encode(bytes.as_slice())
}

/// The share of a token. A text that is not base64, or that holds no byte,
/// is refused as a whole.
pub fn decode_share(token: &str) -> (out: Result<Share, SSSError>)
    ensures
        match out {
            Ok(share) => decoded_row(token@) == Some(share.row()),
            Err(e) => e == SSSError::InvalidShareFormat && decoded_row(token@) is None,
        },
{
    match base64_decode(token) {
        Ok(bytes) => Share::from_bytes(bytes.as_slice()),
        Err(_) => Err(SSSError::InvalidShareFormat),
    }
}

/// Splits `secret` into `n` shares of which any `k` determine it.
///
/// Share `i` has index `i + 1` and holds, for each secret byte, the value at
/// that index of a polynomial of degree below `k` whose constant term is the
/// byte. The other coefficients are drawn at random.
pub fn split(secret: &[u8], k: u8, n: u8) -> (out: Result<Vec<Share>, SSSError>)
    ensures
        out is Ok <==> valid_split(secret@.len(), k, n),
        out is Err ==> out->Err_0 == SSSError::InvalidThreshold,
        out is Ok ==> is_dealt(secret@, k, n, share_rows(out->Ok_0@)),
{
    if k == 0 || n == 0 || k > n || secret.len() == 0 {
        return Err(SSSError::InvalidThreshold);
    }
    let rows = deal_rows(secret, k, n);
    let ghost coeffs = choose|c: Seq<Seq<u8>>| is_dealing(secret@, k, c, rows_view(rows@));
    let mut shares: Vec<Share> = Vec::new();
    let mut i: usize = 0;
    while i < rows.len()
        invariant
            i <= rows@.len(),
            rows@.len() == n,
            valid_split(secret@.len(), k, n),
            is_dealing(secret@, k, coeffs, rows_view(rows@)),
            shares@.len() == i,
            forall|j: int| 0 <= j < i ==> (#[trigger] shares@[j]).row() == rows@[j]@,
        decreases rows@.len() - i,
    {
        assert(rows_view(rows@)[i as int].len() == secret@.len() + 1);
        match Share::from_bytes(rows[i].as_slice()) {
            Ok(share) => {
                shares.push(share);
            },
            Err(e) => {
                return Err(e);
            },
        }
        i += 1;
    }
    assert(share_rows(shares@) == rows_view(rows@));
    assert(is_dealing(secret@, k, coeffs, share_rows(shares@)));
    Ok(shares)
}

/// Recovers the secret from shares: for each byte position, the value at
/// zero of the polynomial through the shares' points.
///
/// An empty list, shares of different lengths and a repeated index are
/// refused. How many shares the split asked for is not known here: from
/// fewer, the result is still the interpolation, and not the secret.
pub fn reconstruct(shares: &[Share]) -> (out: Result<Vec<u8>, SSSError>)
    ensures
        secret_view(out) == reconstruct_outcome(share_rows(shares@)),
{
    let ghost all = share_rows(shares@);
    let count = shares.len();
    if count == 0 {
        return Err(SSSError::InsufficientShares);
    }
    let width = shares[0].values.len();
    let mut seen: Vec<bool> = Vec::new();
    while seen.len() < 256
        invariant
            seen@.len() <= 256,
            forall|x: int| 0 <= x < seen@.len() ==> !seen@[x],
        decreases 256 - seen@.len(),
    {
        seen.push(false);
    }
    let mut rows: Vec<Vec<u8>> = Vec::new();
    let mut i: usize = 0;
    while i < count
        invariant
            i <= count,
            count == shares@.len(),
            all == share_rows(shares@),
            width == shares@[0].values@.len(),
            seen@.len() == 256,
            rows@.len() == i,
            forall|j: int| 0 <= j < i ==> (#[trigger] rows@[j])@ == all[j],
            forall|j: int| 0 <= j < i ==> (#[trigger] all[j]).len() == width + 1,
            forall|x: int|
                0 <= x < 256 ==> (#[trigger] seen@[x] <==> exists|j: int|
                    0 <= j < i && (#[trigger] all[j])[0] == x),
            forall|a: int, b: int|
                0 <= a < i && 0 <= b < i && a != b ==> (#[trigger] all[a])[0] != (
                #[trigger] all[b])[0],
        decreases count - i,
    {
        if shares[i].values.len() != width {
            assert(all[i as int].len() != all[0].len());
            return Err(SSSError::InvalidShareFormat);
        }
        let x = shares[i].index as usize;
        if seen[x] {
            let ghost j = choose|j: int| 0 <= j < i && (#[trigger] all[j])[0] == x;
            assert(all[j][0] == all[i as int][0]);
            return Err(SSSError::InvalidShareFormat);
        }
        seen.set(x, true);
        rows.push(shares[i].to_bytes());
        assert(all[i as int][0] == x);
        i += 1;
    }
    assert(same_length(all));
    assert(distinct_indices(all));
    assert(rows_view(rows@) == all);
    if width == 0 {
        let empty: Vec<u8> = Vec::new();
        assert(empty@ == interpolate(all));
        return Ok(empty);
    }
    match recover_rows(&rows) {
        Some(secret) => Ok(secret),
        None => Err(SSSError::ReconstructionFailed),
    }
}

/// Splits `secret` and returns the shares as tokens.
pub fn split_secret(secret: &[u8], k: u8, n: u8) -> (out: Result<Vec<String>, SSSError>)
    requires
        base64_len(secret@.len() + 1) <= usize::MAX,
    ensures
        out is Ok <==> valid_split(secret@.len(), k, n),
        out is Err ==> out->Err_0 == SSSError::InvalidThreshold,
        out is Ok ==> is_dealt_tokens(secret@, k, n, texts(out->Ok_0@)),
{
    let shares = match split(secret, k, n) {
        Ok(shares) => shares,
        Err(e) => {
            return Err(e);
        },
    };
    let ghost rows = share_rows(shares@);
    let mut tokens: Vec<String> = Vec::new();
    let mut i: usize = 0;
    while i < shares.len()
        invariant
            i <= shares@.len(),
            shares@.len() == n,
            valid_split(secret@.len(), k, n),
            rows == share_rows(shares@),
            is_dealt(secret@, k, n, rows),
            base64_len(secret@.len() + 1) <= usize::MAX,
            tokens@.len() == i,
            forall|j: int| 0 <= j < i ==> (#[trigger] tokens@[j])@ == base64_text(rows[j]),
            forall|j: int| 0 <= j < i ==> decoded_row((#[trigger] tokens@[j])@) == Some(rows[j]),
        decreases shares@.len() - i,
    {
        assert(rows[i as int].len() == secret@.len() + 1) by {
            let coeffs = choose|c: Seq<Seq<u8>>| is_dealing(secret@, k, c, rows);
            assert(is_dealing(secret@, k, coeffs, rows));
        }
        tokens.push(encode_share(&shares[i]));
        i += 1;
    }
    assert(texts(tokens@) == encoded_rows(rows));
    assert(decoded_rows(texts(tokens@)) == Some(rows)) by {
        assert forall|j: int| 0 <= j < tokens@.len() implies decoded_row(
            #[trigger] texts(tokens@)[j],
        ) == Some(rows[j]) by {
            assert(texts(tokens@)[j] == tokens@[j]@);
        }
        assert(decoded_rows(texts(tokens@))->0 =~= rows);
    }
    Ok(tokens)
}

/// Recovers the secret from tokens: each is decoded, then the shares are
/// combined as `reconstruct` does. One token that does not decode refuses the
/// whole list.
pub fn reconstruct_secret(encoded_shares: &[String]) -> (out: Result<Vec<u8>, SSSError>)
    ensures
        secret_view(out) == reconstruct_secret_outcome(texts(encoded_shares@)),
{
    let ghost tokens = texts(encoded_shares@);
    if encoded_shares.len() == 0 {
        return Err(SSSError::InsufficientShares);
    }
    let mut shares: Vec<Share> = Vec::new();
    let mut i: usize = 0;
    while i < encoded_shares.len()
        invariant
            i <= encoded_shares@.len(),
            tokens == texts(encoded_shares@),
            shares@.len() == i,
            forall|j: int|
                0 <= j < i ==> decoded_row(#[trigger] tokens[j]) == Some(shares@[j].row()),
        decreases encoded_shares@.len() - i,
    {
        match decode_share(encoded_shares[i].as_str()) {
            Ok(share) => {
                shares.push(share);
            },
            Err(e) => {
                assert(decoded_row(tokens[i as int]) is None);
                return Err(e);
            },
        }
        i += 1;
    }
    assert(decoded_rows(tokens) == Some(share_rows(shares@))) by {
        assert(decoded_rows(tokens)->0 =~= share_rows(shares@));
    }
    reconstruct(shares.as_slice())
}

} // verus!
