//! Artifact checksums: SHA-256 through the `sha2` crate, encoded as
//! lowercase hexadecimal by verified code.

use sha2::Digest;
use sha2::Sha256;
use vstd::prelude::*;

verus! {

/// The SHA-256 digest of a byte string: a function of the bytes alone,
/// left unspecified here and computed only by the `sha2` crate.
pub uninterp spec fn sha256_of(data: Seq<u8>) -> Seq<u8>;

/// Relies on `sha2::Sha256` through `Digest::digest`: the SHA-256 digest
/// of the input, always 32 bytes, depending on the input bytes alone.
#[verifier::external_body]
pub fn sha256(data: &Vec<u8>) -> (r: Vec<u8>)
    ensures
        r@ == sha256_of(data@),
        r@.len() == 32,
{
    Sha256::digest(data.as_slice()).to_vec()
}

/// The lowercase hexadecimal digit for a value below 16.
pub open spec fn hex_digit(n: u8) -> u8 {
    if n < 10 {
        (48 + n) as u8
    } else {
        (87 + n) as u8
    }
}

/// Lowercase hexadecimal encoding, two digits per byte, high nibble
/// first.
pub open spec fn hex_of(data: Seq<u8>) -> Seq<u8>
    decreases data.len(),
{
    if data.len() == 0 {
        Seq::empty()
    } else {
        hex_of(data.take(data.len() - 1)) + seq![
            hex_digit(data[data.len() - 1] / 16),
            hex_digit(data[data.len() - 1] % 16),
        ]
    }
}

pub open spec fn is_hex_lower_digit(b: u8) -> bool {
    48 <= b <= 57 || 97 <= b <= 102
}

pub proof fn lemma_hex_of_wf(data: Seq<u8>)
    ensures
        hex_of(data).len() == 2 * data.len(),
        forall|i: int| 0 <= i < hex_of(data).len() ==> is_hex_lower_digit(#[trigger] hex_of(
            data,
        )[i]),
    decreases data.len(),
{
    if data.len() > 0 {
        lemma_hex_of_wf(data.take(data.len() - 1));
    }
}

/// Encode bytes as lowercase hexadecimal.
pub fn to_hex(data: &Vec<u8>) -> (r: Vec<u8>)
    ensures
        r@ == hex_of(data@),
{
    let mut out: Vec<u8> = Vec::new();
    let mut k: usize = 0;
    proof {
        assert(data@.take(0) =~= Seq::<u8>::empty());
        assert(out@ =~= hex_of(data@.take(0)));
    }
    while k < data.len()
        invariant
            k <= data.len(),
            out@ == hex_of(data@.take(k as int)),
        decreases data.len() - k,
    {
        let b = data[k];
        let hi = b / 16;
        let lo = b % 16;
        out.push(if hi < 10 { 48 + hi } else { 87 + hi });
        out.push(if lo < 10 { 48 + lo } else { 87 + lo });
        proof {
            assert(data@.take(k + 1).take(k as int) =~= data@.take(k as int));
            assert(data@.take(k + 1)[k as int] == data@[k as int]);
            assert(out@ =~= hex_of(data@.take(k + 1)));
        }
        k += 1;
    }
    proof {
        assert(data@.take(data@.len() as int) =~= data@);
    }
    out
}


/// Check that bytes are exactly 64 lowercase hexadecimal digits.
pub fn hex64_check(v: &Vec<u8>) -> (r: bool)
    ensures
        r == (v@.len() == 64 && (forall|i: int|
            0 <= i < v@.len() ==> is_hex_lower_digit(#[trigger] v@[i]))),
{
    if v.len() != 64 {
        return false;
    }
    let mut k: usize = 0;
    while k < v.len()
        invariant
            k <= v.len(),
            forall|i: int| 0 <= i < k ==> is_hex_lower_digit(#[trigger] v@[i]),
        decreases v.len() - k,
    {
        let b = v[k];
        if !((48 <= b && b <= 57) || (97 <= b && b <= 102)) {
            return false;
        }
        k += 1;
    }
    true
}

} // verus!
