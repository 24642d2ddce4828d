//! Checksums.

use sha2::{Digest, Sha256};
use vstd::prelude::*;
use vstd::string::*;

verus! {

/// The SHA-256 digest of a sequence of bytes.
pub uninterp spec fn sha256(data: Seq<u8>) -> Seq<u8>;

/// `Sha256::digest` hashes the bytes it is given: the result depends on
/// nothing else, and is 32 bytes long.
#[verifier::external_body]
fn sha256_of(data: &[u8]) -> (r: Vec<u8>)
    ensures
        r@ == sha256(data@),
        r@.len() == 32,
{
    Sha256::digest(data).to_vec()
}

/// The lower case hexadecimal digit of a number below 16.
pub open spec fn hex_digit(d: int) -> char {
    if d < 10 {
        (48 + d) as char
    } else {
        (87 + d) as char
    }
}

/// Two lower case hexadecimal digits for each byte.
pub open spec fn hex(bytes: Seq<u8>) -> Seq<char>
    decreases bytes.len(),
{
    if bytes.len() == 0 {
        seq![]
    } else {
        hex(bytes.drop_last()).push(hex_digit(bytes.last() as int / 16)).push(
            hex_digit(bytes.last() as int % 16),
        )
    }
}

/// Two lower case hexadecimal digits for each byte.
pub fn hex_of(bytes: &[u8]) -> (r: String)
    ensures
        r@ == hex(bytes@),
{
    let mut out = String::new();
    let mut i: usize = 0;
    assert(bytes@.take(0) =~= Seq::<u8>::empty());
    while i < bytes.len()
        invariant
            i <= bytes.len(),
            out@ == hex(bytes@.take(i as int)),
        decreases bytes.len() - i,
    {
        let b = bytes[i];
        let high: u8 = b / 16;
        let low: u8 = b % 16;
        out.push(hex_char(high));
        out.push(hex_char(low));
        assert(bytes@.take(i + 1).drop_last() =~= bytes@.take(i as int));
        i += 1;
    }
    assert(bytes@.take(i as int) =~= bytes@);
    out
}

fn hex_char(d: u8) -> (r: char)
    requires
        d < 16,
    ensures
        r == hex_digit(d as int),
{
    if d < 10 {
        (48u8 + d) as char
    } else {
        (87u8 + d) as char
    }
}

/// The SHA-256 checksum in lower case hexadecimal digits.
pub open spec fn checksum(data: Seq<u8>) -> Seq<char> {
    hex(sha256(data))
}

/// The SHA-256 checksum in lower case hexadecimal digits.
pub fn sha256_hex(bytes: &[u8]) -> (r: String)
    ensures
        r@ == checksum(bytes@),
{
    hex_of(sha256_of(bytes).as_slice())
}

/// The digits determine the bytes.
pub proof fn law_hex_is_injective(a: Seq<u8>, b: Seq<u8>)
    ensures
        hex(a) == hex(b) <==> a == b,
        hex(a).len() == 2 * a.len(),
    decreases a.len(),
{
    lemma_hex_len(a);
    lemma_hex_len(b);
    if hex(a) == hex(b) {
        if a.len() > 0 {
            let x = hex(a.drop_last());
            let y = hex(b.drop_last());
            assert(x =~= hex(a).take(hex(a).len() - 2));
            assert(y =~= hex(b).take(hex(b).len() - 2));
            law_hex_is_injective(a.drop_last(), b.drop_last());
            assert(hex(a)[hex(a).len() - 1] == hex_digit(a.last() as int % 16));
            assert(hex(b)[hex(b).len() - 1] == hex_digit(b.last() as int % 16));
            assert(hex(a)[hex(a).len() - 2] == hex_digit(a.last() as int / 16));
            assert(hex(b)[hex(b).len() - 2] == hex_digit(b.last() as int / 16));
            assert(a =~= a.drop_last().push(a.last()));
            assert(b =~= b.drop_last().push(b.last()));
        } else {
            assert(a =~= b);
        }
    }
}

proof fn lemma_hex_len(a: Seq<u8>)
    ensures
        hex(a).len() == 2 * a.len(),
    decreases a.len(),
{
    if a.len() > 0 {
        lemma_hex_len(a.drop_last());
    }
}

} // verus!
