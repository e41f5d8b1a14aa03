//! Content hashing for re-analysis skipping: the SHA-256 digest of a
//! corpus, upper-case hex encoded, and the decision whether a corpus
//! must be analysed again.

use vstd::prelude::*;

verus! {

/// The SHA-256 digest of a byte sequence, as the ring crate computes
/// it: a function of the bytes alone.
pub uninterp spec fn sha256_of(bytes: Seq<u8>) -> Seq<u8>;

/// The upper-case hex encoding of a byte sequence, as the
/// data-encoding crate computes it: a function of the bytes alone.
pub uninterp spec fn hex_upper_of(bytes: Seq<u8>) -> Seq<char>;

/// Relies on `ring::digest::digest` with `SHA256`: a 32-byte digest
/// depending on the data alone. SHA-256 is undefined beyond 2^61 bytes
/// of input, which the precondition rules out.
#[verifier::external_body]
fn sha256_digest(data: &Vec<u8>) -> (r: Vec<u8>)
    requires
        data@.len() < 0x2000_0000_0000_0000,
    ensures
        r@ == sha256_of(data@),
        r@.len() == 32,
{
    ring::digest::digest(&ring::digest::SHA256, data.as_slice()).as_ref().to_vec()
}

/// Relies on `data_encoding::HEXUPPER.encode`: two upper-case hex
/// digits for each byte, depending on the bytes alone.
#[verifier::external_body]
fn hex_upper(data: &Vec<u8>) -> (r: String)
    ensures
        r@ == hex_upper_of(data@),
        r@.len() == 2 * data@.len(),
{
    data_encoding::HEXUPPER.encode(data.as_slice())
}

/// The upper-case hex SHA-256 digest of a corpus: 64 hex characters.
pub fn digest_sha256(data: &Vec<u8>) -> (r: String)
    requires
        data@.len() < 0x2000_0000_0000_0000,
    ensures
        r@ == hex_upper_of(sha256_of(data@)),
        r@.len() == 64,
{
    let digest = sha256_digest(data);
    hex_upper(&digest)
}

/// Whether a corpus must be analysed again: always under `force`,
/// otherwise exactly when no stored digest matches the current one.
pub fn should_reanalyse(force: bool, stored: Option<&String>, current: &String) -> (r: bool)
    ensures
        r == (force || match stored {
            Some(h) => h@ != current@,
            None => true,
        }),
{
    if force {
        return true;
    }
    match stored {
        None => true,
        Some(h) => !(*h).eq(current),
    }
}

} // verus!
