//! SHA-256 digests and their hexadecimal notation.

use sha2::Digest;
use vstd::prelude::*;

use crate::text::Text;

verus! {

/// The SHA-256 digest of a sequence of bytes.
pub uninterp spec fn sha256(data: Seq<u8>) -> Seq<u8>;

/// `sha2::Sha256::digest` gives the SHA-256 digest of its argument, which has 32 bytes.
#[verifier::external_body]
pub(crate) fn sha256_digest(data: &[u8]) -> (r: Vec<u8>)
    ensures
        r@ == sha256(data@),
        r@.len() == 32,
{
    sha2::Sha256::digest(data).to_vec()
}

/// The lower-case hexadecimal digit of a number below 16.
pub open spec fn hex_digit(d: nat) -> char {
    if d < 10 {
        (48 + d) as char
    } else {
        (87 + d) as char
    }
}

/// The lower-case hexadecimal notation of bytes, two digits for each, the high one first.
pub open spec fn hex_notation(data: Seq<u8>) -> Text {
    Seq::new(
        2 * data.len(),
        |i: int|
            if i % 2 == 0 {
                hex_digit(data[i / 2] as nat / 16)
            } else {
                hex_digit(data[i / 2] as nat % 16)
            },
    )
}

/// `hex::encode` gives the lower-case hexadecimal notation of its argument.
#[verifier::external_body]
pub(crate) fn hex_encode(data: &[u8]) -> (r: String)
    ensures
        r@ == hex_notation(data@),
{
    hex::encode(data)
}

/// The hexadecimal SHA-256 digest of some bytes.
pub fn content_hash(data: &[u8]) -> (r: String)
    ensures
        r@ == hex_notation(sha256(data@)),
        r@.len() == 64,
{
    let digest = sha256_digest(data);
    hex_encode(digest.as_slice())
}

/// Every byte is written as two digits, the first for sixteen and the second for one, and the digits
/// from ten on are the letters from a on.
pub proof fn law_hex_notation(data: Seq<u8>, i: int)
    requires
        0 <= i < data.len(),
    ensures
        hex_notation(data).len() == 2 * data.len(),
        data[i] as int == 16 * digit_value(hex_notation(data)[2 * i]) + digit_value(
            hex_notation(data)[2 * i + 1],
        ),
        '0' <= hex_notation(data)[2 * i] <= '9' || 'a' <= hex_notation(data)[2 * i] <= 'f',
        '0' <= hex_notation(data)[2 * i + 1] <= '9' || 'a' <= hex_notation(data)[2 * i + 1] <= 'f',
{
    let b = data[i] as nat;
    assert(2 * i / 2 == i && (2 * i + 1) / 2 == i);
    assert(b / 16 < 16 && b % 16 < 16);
    assert(b == 16 * (b / 16) + b % 16);
}

/// The number that a digit denotes.
pub open spec fn digit_value(c: char) -> int {
    if '0' <= c <= '9' {
        c as int - '0' as int
    } else {
        c as int - 'a' as int + 10
    }
}

} // verus!
