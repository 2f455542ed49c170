//! The content digest.

use vstd::prelude::*;

verus! {

/// The digest of a byte sequence, rendered as lowercase hexadecimal. The
/// digest is the duplicate-group key: two files are reported as duplicates
/// exactly when their contents carry the same digest.
pub uninterp spec fn blake3_hex_of(bytes: Seq<u8>) -> Seq<char>;

/// Relies on `blake3::hash` and `blake3::Hash::to_hex`: the digest depends
/// on the input bytes alone, and its hexadecimal form is 64 lowercase
/// characters.
#[verifier::external_body]
pub(crate) fn blake3_hex(bytes: &Vec<u8>) -> (r: String)
    ensures
        r@ == blake3_hex_of(bytes@),
        r@.len() == 64,
{
    blake3::hash(bytes.as_slice()).to_hex().as_str().to_string()
}

} // verus!
