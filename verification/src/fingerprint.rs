//! The SHA-256 fingerprint of a sample, written in hexadecimal, that names its evidence.
use vstd::prelude::*;

verus! {

/// The SHA-256 digest of `data` (what `sha2::Sha256` computes).
pub uninterp spec fn sha256_digest(data: Seq<u8>) -> Seq<u8>;

/// Calls `sha2::Digest::digest` for `sha2::Sha256` and copies out the digest. The contract
/// claims that the result is `sha256_digest` of the data and, as the output type
/// (`GenericArray<u8, U32>`) fixes, 32 bytes long.
#[verifier::external_body]
fn sha256(data: &[u8]) -> (res: Vec<u8>)
    ensures
        res@ == sha256_digest(data@),
        res@.len() == 32,
{
    <sha2::Sha256 as sha2::Digest>::digest(data).to_vec()
}

/// A lower-case hexadecimal digit.
pub open spec fn hex_digit(n: int) -> char {
    if n < 10 {
        (('0' as int) + n) as char
    } else {
        (('a' as int) + n - 10) as char
    }
}

/// Each byte as two lower-case hexadecimal digits, high half first.
pub open spec fn hex_lower(bytes: Seq<u8>) -> Seq<char>
    decreases bytes.len(),
{
    if bytes.len() == 0 {
        Seq::<char>::empty()
    } else {
        hex_lower(bytes.drop_last()) + seq![
            hex_digit((bytes.last() / 16) as int),
            hex_digit((bytes.last() % 16) as int),
        ]
    }
}

/// Calls `hex::encode`. The contract states what its source does: each byte becomes two
/// lower-case hexadecimal digits, high half first.
#[verifier::external_body]
fn hex_encode(data: &[u8]) -> (res: String)
    ensures
        res@ == hex_lower(data@),
{
    hex::encode(data)
}

/// Hexadecimal text is twice as long as its bytes, and every character is a lower-case
/// hexadecimal digit.
pub proof fn lemma_hex_lower_shape(bytes: Seq<u8>)
    ensures
        hex_lower(bytes).len() == 2 * bytes.len(),
        forall|i: int|
            0 <= i < hex_lower(bytes).len() ==> ('0' <= #[trigger] hex_lower(bytes)[i] <= '9') || (
            'a' <= hex_lower(bytes)[i] <= 'f'),
    decreases bytes.len(),
{
    if bytes.len() > 0 {
        let rest = bytes.drop_last();
        lemma_hex_lower_shape(rest);
        let h = hex_lower(bytes);
        let r = hex_lower(rest);
        assert forall|i: int| 0 <= i < h.len() implies ('0' <= #[trigger] h[i] <= '9') || ('a' <= h[i]
            <= 'f') by {
            if i < r.len() {
                assert(h[i] == r[i]);
            }
        }
    }
}

/// The fingerprint of a sample: its SHA-256 digest in lower-case hexadecimal.
pub fn evidence_fingerprint(buffer: &[u8]) -> (res: String)
    ensures
        res@ == hex_lower(sha256_digest(buffer@)),
        res@.len() == 64,
        forall|i: int| 0 <= i < 64 ==> ('0' <= #[trigger] res@[i] <= '9') || ('a' <= res@[i] <= 'f'),
{
    let digest = sha256(buffer);
    let res = hex_encode(digest.as_slice());
    proof {
        lemma_hex_lower_shape(digest@);
    }
    res
}

} // verus!
