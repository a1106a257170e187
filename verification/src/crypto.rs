//! Digests and the base32 text encoding, obtained from outside crates.
//!
//! The outputs are functions of the input bytes alone, so each is given a
//! name that the callers' contracts build on.
use vstd::prelude::*;

verus! {

/// The 32-byte SHA3-256 digest of a byte sequence.
pub uninterp spec fn sha3_256_of(bytes: Seq<u8>) -> Seq<u8>;

/// The 32-byte double SHA-256 digest of a byte sequence.
pub uninterp spec fn sha256d_of(bytes: Seq<u8>) -> Seq<u8>;

/// The unpadded lowercase base32 rendering of a byte sequence.
pub uninterp spec fn base32_lower_of(bytes: Seq<u8>) -> Seq<char>;

/// The lowercase base32 alphabet of RFC 4648: `a`..`z` then `2`..`7`.
pub open spec fn is_base32_char(c: char) -> bool {
    ('a' <= c && c <= 'z') || ('2' <= c && c <= '7')
}

/// Relies on sha3::Sha3_256 through the digest traits: the 32-byte
/// SHA3-256 digest of the input, a function of the input bytes alone.
#[verifier::external_body]
pub fn sha3_256(input: &[u8]) -> (r: Vec<u8>)
    ensures
        r@ == sha3_256_of(input@),
        r@.len() == 32,
{
    let digest = <sha3::Sha3_256 as sha3::digest::Digest>::digest(input);
    digest.to_vec()
}

/// Relies on bitcoin::hashes::sha256d::Hash::hash: the 32-byte double
/// SHA-256 digest of the input, a function of the input bytes alone.
#[verifier::external_body]
pub fn sha256d(input: &[u8]) -> (r: Vec<u8>)
    ensures
        r@ == sha256d_of(input@),
        r@.len() == 32,
{
    let h = <bitcoin::hashes::sha256d::Hash as bitcoin::hashes::Hash>::hash(input);
    <bitcoin::hashes::sha256d::Hash as bitcoin::hashes::Hash>::to_byte_array(h).to_vec()
}

/// Relies on data_encoding::Encoding::encode with a 32-symbol lowercase
/// alphabet and no padding: one symbol per 5 input bits, most significant
/// bit first, so the output holds exactly ceil(8 * len / 5) symbols, all
/// drawn from that alphabet.
#[verifier::external_body]
pub fn base32_lower(input: &[u8]) -> (r: String)
    requires
        input@.len() <= 1000000,
    ensures
        r@ == base32_lower_of(input@),
        r@.len() == (input@.len() * 8 + 4) / 5,
        forall|i: int| 0 <= i < r@.len() ==> is_base32_char(r@[i]),
{
    let mut spec = data_encoding::Specification::new();
    spec.symbols.push_str("abcdefghijklmnopqrstuvwxyz234567");
    let encoding = spec.encoding().unwrap();
    encoding.encode(input)
}

} // verus!
