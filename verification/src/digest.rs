//! The SHA-256 digest that names the files of a key.

use vstd::prelude::*;

verus! {

/// The lowercase hexadecimal SHA-256 digest of the UTF-8 encoding of `input`.
pub uninterp spec fn sha256_hex(input: Seq<char>) -> Seq<char>;

/// A character that `hex::encode` can produce.
pub open spec fn is_lower_hex_digit(c: char) -> bool {
    ('0' <= c && c <= '9') || ('a' <= c && c <= 'f')
}

/// A digest as `hex::encode` writes it: 64 lowercase hexadecimal characters.
pub open spec fn is_hex_digest(h: Seq<char>) -> bool {
    &&& h.len() == 64
    &&& forall|i: int| 0 <= i < h.len() ==> is_lower_hex_digit(#[trigger] h[i])
}

/// Calls `sha256::digest` on a string slice.
///
/// Trusted: the result is `sha256_hex` of the input, and it is 64 lowercase
/// hexadecimal characters, since the crate returns `hex::encode` of the
/// 32-byte SHA-256 output and `hex::encode` uses the lowercase table.
#[verifier::external_body]
pub(crate) fn sha256_digest(input: &str) -> (hex: String)
    ensures
        hex@ == sha256_hex(input@),
        is_hex_digest(hex@),
{
    sha256::digest(input)
}

} // verus!
