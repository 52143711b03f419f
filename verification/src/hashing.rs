//! Content hashes: BLAKE3 digests rendered as lowercase hexadecimal.

use crate::text::push_char;
use vstd::prelude::*;

verus! {

/// The BLAKE3 digest of `input`: the 32 bytes that `blake3::hash` returns for it.
pub uninterp spec fn blake3_digest(input: Seq<u8>) -> Seq<u8>;

/// Calls `blake3::hash` and hands back the bytes of the `Hash` it returns.
/// The contract names that result and repeats that a `Hash` holds 32 bytes.
#[verifier::external_body]
fn digest(input: &[u8]) -> (d: Vec<u8>)
    ensures
        d@ == blake3_digest(input@),
        d@.len() == 32,
{
    blake3::hash(input).as_bytes().to_vec()
}

/// The lowercase hexadecimal digit of a value below sixteen.
pub open spec fn hex_digit(nibble: u8) -> char {
    if nibble < 10 {
        (48 + nibble) as char
    } else {
        (87 + nibble) as char
    }
}

/// The two lowercase hexadecimal digits of each byte, high nibble first.
pub open spec fn hex_lower(bytes: Seq<u8>) -> Seq<char>
    decreases bytes.len(),
{
    if bytes.len() == 0 {
        Seq::empty()
    } else {
        hex_lower(bytes.drop_last()).push(hex_digit(bytes.last() / 16)).push(
            hex_digit(bytes.last() % 16),
        )
    }
}

/// True of the characters `0`-`9` and `a`-`f`.
pub open spec fn is_lower_hex(c: char) -> bool {
    ('0' <= c && c <= '9') || ('a' <= c && c <= 'f')
}

/// What a content hash of `input` is: the hexadecimal form of its digest.
pub open spec fn content_hash(input: Seq<u8>) -> Seq<char> {
    hex_lower(blake3_digest(input))
}

fn nibble_char(nibble: u8) -> (c: char)
    requires
        nibble < 16,
    ensures
        c == hex_digit(nibble),
        is_lower_hex(c),
{
    if nibble < 8 {
        if nibble < 4 {
            if nibble == 0 { '0' } else if nibble == 1 { '1' } else if nibble == 2 { '2' } else { '3' }
        } else {
            if nibble == 4 { '4' } else if nibble == 5 { '5' } else if nibble == 6 { '6' } else { '7' }
        }
    } else {
        if nibble < 12 {
            if nibble == 8 { '8' } else if nibble == 9 { '9' } else if nibble == 10 { 'a' } else { 'b' }
        } else {
            if nibble == 12 { 'c' } else if nibble == 13 { 'd' } else if nibble == 14 { 'e' } else { 'f' }
        }
    }
}

/// Renders bytes in lowercase hexadecimal, two digits a byte.
pub fn to_hex(bytes: &[u8]) -> (s: String)
    ensures
        s@ == hex_lower(bytes@),
        s@.len() == 2 * bytes@.len(),
        forall|i: int| 0 <= i < s@.len() ==> is_lower_hex(#[trigger] s@[i]),
{
    let mut s = String::new();
    let mut i: usize = 0;
    while i < bytes.len()
        invariant
            i <= bytes.len(),
            s@ == hex_lower(bytes@.take(i as int)),
            s@.len() == 2 * i,
            forall|k: int| 0 <= k < s@.len() ==> is_lower_hex(#[trigger] s@[k]),
        decreases bytes.len() - i,
    {
        let b = bytes[i];
        proof {
            assert(bytes@.take(i + 1).drop_last() == bytes@.take(i as int));
            assert(bytes@.take(i + 1).last() == b);
        }
        push_char(&mut s, nibble_char(b / 16));
        push_char(&mut s, nibble_char(b % 16));
        i += 1;
    }
    proof {
        assert(bytes@.take(i as int) == bytes@);
    }
    s
}

/// Appends the UTF-8 bytes of a text to what is to be hashed.
pub fn absorb(buffer: &mut Vec<u8>, text: &str)
    ensures
        final(buffer)@ == old(buffer)@ + vstd::utf8::encode_utf8(text@),
{
    let bytes = text.as_bytes();
    let ghost before = buffer@;
    let mut i: usize = 0;
    while i < bytes.len()
        invariant
            i <= bytes.len(),
            buffer@ == before + bytes@.take(i as int),
        decreases bytes.len() - i,
    {
        buffer.push(bytes[i]);
        assert(bytes@.take(i + 1) == bytes@.take(i as int).push(bytes@[i as int]));
        i += 1;
    }
    assert(bytes@.take(i as int) == bytes@);
}

/// The content hash of `input`: its BLAKE3 digest as 64 lowercase hexadecimal digits.
pub fn hash_bytes(input: &[u8]) -> (h: String)
    ensures
        h@ == content_hash(input@),
        h@.len() == 64,
        forall|i: int| 0 <= i < h@.len() ==> is_lower_hex(#[trigger] h@[i]),
{
    let d = digest(input);
    to_hex(d.as_slice())
}

} // verus!
