//! The byte codec: how typed values are laid out as byte sequences inside
//! linear memory.
//!
//! Integers are eight bytes, little-endian; two's complement for the signed
//! kind. Booleans are one byte, zero for `false`, one for `true`; any non-zero
//! byte reads back as `true`. Strings are their UTF-8 bytes with no length
//! prefix; when read out of a fixed slot they end at the first NUL byte.
//! Byte blobs are the raw bytes themselves.

use vstd::bytes::{
    spec_u64_from_le_bytes, spec_u64_to_le_bytes, u64_from_le_bytes, u64_to_le_bytes,
};
use vstd::prelude::*;
use vstd::string::StrSliceExecFns;
use vstd::utf8::{decode_utf8, encode_utf8, valid_utf8};

verus! {

broadcast use vstd::utf8::group_utf8_lib;

/// Number of bytes in the encoding of an integer.
pub const INT_SIZE: usize = 8;

/// The little-endian byte encoding of an unsigned 64-bit integer.
pub open spec fn spec_u64_bytes(v: u64) -> Seq<u8> {
    spec_u64_to_le_bytes(v)
}

/// The unsigned 64-bit integer read from eight little-endian bytes.
pub open spec fn spec_u64_of_bytes(s: Seq<u8>) -> u64 {
    spec_u64_from_le_bytes(s)
}

/// The little-endian two's-complement byte encoding of a signed 64-bit integer.
pub open spec fn spec_i64_bytes(v: i64) -> Seq<u8> {
    spec_u64_to_le_bytes(v as u64)
}

/// The signed 64-bit integer read from eight little-endian two's-complement bytes.
pub open spec fn spec_i64_of_bytes(s: Seq<u8>) -> i64 {
    spec_u64_from_le_bytes(s) as i64
}

/// The one-byte encoding of a boolean.
pub open spec fn spec_bool_byte(b: bool) -> u8 {
    if b {
        1
    } else {
        0
    }
}

/// The boolean read from one byte: any non-zero byte is `true`.
pub open spec fn spec_byte_bool(x: u8) -> bool {
    x != 0
}

/// Encode an unsigned 64-bit integer as eight little-endian bytes.
pub fn u64_to_bytes(v: u64) -> (r: Vec<u8>)
    ensures
        r@ == spec_u64_bytes(v),
        r@.len() == 8,
{
    proof {
        vstd::bytes::lemma_auto_spec_u64_to_from_le_bytes();
    }
    u64_to_le_bytes(v)
}

/// Decode an unsigned 64-bit integer from eight little-endian bytes.
pub fn u64_of_bytes(s: &[u8]) -> (r: u64)
    requires
        s@.len() == 8,
    ensures
        r == spec_u64_of_bytes(s@),
{
    u64_from_le_bytes(s)
}

/// Encode a signed 64-bit integer as eight little-endian two's-complement bytes.
pub fn i64_to_bytes(v: i64) -> (r: Vec<u8>)
    ensures
        r@ == spec_i64_bytes(v),
        r@.len() == 8,
{
    u64_to_bytes(v as u64)
}

/// Decode a signed 64-bit integer from eight little-endian two's-complement bytes.
pub fn i64_of_bytes(s: &[u8]) -> (r: i64)
    requires
        s@.len() == 8,
    ensures
        r == spec_i64_of_bytes(s@),
{
    u64_of_bytes(s) as i64
}

/// Encode a boolean as one byte.
pub fn bool_to_byte(b: bool) -> (r: u8)
    ensures
        r == spec_bool_byte(b),
{
    if b {
        1
    } else {
        0
    }
}

/// Decode a boolean from one byte.
pub fn bool_of_byte(x: u8) -> (r: bool)
    ensures
        r == spec_byte_bool(x),
{
    x != 0
}

/// The encoding of an unsigned integer is eight bytes long.
pub broadcast proof fn lemma_u64_bytes_len(v: u64)
    ensures
        (#[trigger] spec_u64_bytes(v)).len() == 8,
{
    vstd::bytes::lemma_auto_spec_u64_to_from_le_bytes();
}

/// The encoding of a signed integer is eight bytes long.
pub broadcast proof fn lemma_i64_bytes_len(v: i64)
    ensures
        (#[trigger] spec_i64_bytes(v)).len() == 8,
{
    vstd::bytes::lemma_auto_spec_u64_to_from_le_bytes();
}

/// Unsigned integers decode to the value they were encoded from.
pub proof fn lemma_u64_round_trip(v: u64)
    ensures
        spec_u64_of_bytes(spec_u64_bytes(v)) == v,
        spec_u64_bytes(v).len() == 8,
{
    vstd::bytes::lemma_auto_spec_u64_to_from_le_bytes();
}

/// Signed integers decode to the value they were encoded from.
pub proof fn lemma_i64_round_trip(v: i64)
    ensures
        spec_i64_of_bytes(spec_i64_bytes(v)) == v,
        spec_i64_bytes(v).len() == 8,
{
    vstd::bytes::lemma_auto_spec_u64_to_from_le_bytes();
    assert((v as u64) as i64 == v) by (bit_vector);
}

/// Booleans decode to the value they were encoded from.
pub proof fn lemma_bool_round_trip(b: bool)
    ensures
        spec_byte_bool(spec_bool_byte(b)) == b,
{
}

/// The prefix of a byte sequence that stops at the first NUL byte: the
/// contents of a string slot of fixed size.
pub open spec fn trim_at_nul(s: Seq<u8>) -> Seq<u8>
    decreases s.len(),
{
    if s.len() == 0 {
        s
    } else if s[0] == 0 {
        Seq::empty()
    } else {
        seq![s[0]] + trim_at_nul(s.drop_first())
    }
}

/// A sequence without NUL bytes is left whole by [`trim_at_nul`].
pub proof fn lemma_trim_at_nul_no_nul(s: Seq<u8>)
    requires
        forall|i: int| 0 <= i < s.len() ==> s[i] != 0,
    ensures
        trim_at_nul(s) == s,
    decreases s.len(),
{
    if s.len() == 0 {
        assert(trim_at_nul(s) =~= s);
    } else {
        lemma_trim_at_nul_no_nul(s.drop_first());
        assert(trim_at_nul(s) =~= s);
    }
}

/// Cut a byte vector at its first NUL byte.
pub fn cut_at_nul(s: &[u8]) -> (r: Vec<u8>)
    ensures
        r@ == trim_at_nul(s@),
{
    let mut v: Vec<u8> = Vec::new();
    let mut i: usize = 0;
    loop
        invariant
            i <= s@.len(),
            v@ == s@.take(i as int),
            forall|j: int| 0 <= j < i ==> s@[j] != 0,
        decreases s@.len() - i,
    {
        if i == s.len() {
            proof {
                lemma_trim_at_nul_no_nul(s@);
                assert(v@ =~= s@);
            }
            return v;
        }
        if s[i] == 0 {
            proof {
                lemma_trim_at_nul_prefix(s@, i as int);
            }
            return v;
        }
        let b = s[i];
        v.push(b);
        i = i + 1;
        assert(v@ =~= s@.take(i as int));
    }
}

/// Trimming a sequence whose first NUL byte stands at `i` yields its prefix
/// of length `i`.
proof fn lemma_trim_at_nul_prefix(s: Seq<u8>, i: int)
    requires
        0 <= i <= s.len(),
        forall|j: int| 0 <= j < i ==> s[j] != 0,
        i < s.len() ==> s[i] == 0,
    ensures
        trim_at_nul(s) == s.take(i),
    decreases s.len(),
{
    if s.len() == 0 {
        assert(trim_at_nul(s) =~= s.take(i));
    } else if i == 0 {
        assert(trim_at_nul(s) =~= s.take(0));
    } else {
        lemma_trim_at_nul_prefix(s.drop_first(), i - 1);
        assert(s.drop_first().take(i - 1) =~= s.take(i).drop_first());
        assert(trim_at_nul(s) =~= seq![s[0]] + s.take(i).drop_first());
        assert(trim_at_nul(s) =~= s.take(i));
    }
}

/// The UTF-8 bytes of a string.
pub fn string_to_bytes(s: &str) -> (r: Vec<u8>)
    ensures
        r@ == encode_utf8(s@),
{
    s.as_bytes_vec()
}

/// Relies on `String::from_utf8`: it returns a string holding exactly the
/// given bytes when they are valid UTF-8, and rejects them otherwise.
#[verifier::external_body]
pub fn bytes_to_string(v: Vec<u8>) -> (r: Option<String>)
    ensures
        match r {
            Some(s) => valid_utf8(v@) && encode_utf8(s@) == v@,
            None => !valid_utf8(v@),
        },
{
    match String::from_utf8(v) {
        Ok(s) => Some(s),
        Err(_) => None,
    }
}

/// Strings decode to the value they were encoded from: the UTF-8 bytes of a
/// string are valid UTF-8 and decode to the same characters.
pub proof fn lemma_string_round_trip(chars: Seq<char>)
    ensures
        valid_utf8(encode_utf8(chars)),
        decode_utf8(encode_utf8(chars)) == chars,
{
}

/// Decoding valid UTF-8 pins the characters: two strings with the same UTF-8
/// bytes hold the same characters.
pub proof fn lemma_utf8_injective(a: Seq<char>, b: Seq<char>)
    requires
        encode_utf8(a) == encode_utf8(b),
    ensures
        a == b,
{
    assert(decode_utf8(encode_utf8(a)) == a);
    assert(decode_utf8(encode_utf8(b)) == b);
}

} // verus!
