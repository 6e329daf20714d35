//! The byte codec: big-endian integers and the additive checksum.

use vstd::prelude::*;
use vstd::utf8::{decode_utf8, valid_utf8};
use crate::error::DbError;

verus! {

/// The byte of `data` that starts `digit` bits above its lowest bit.
pub open spec fn byte_at(data: u128, digit: u128) -> u8 {
    ((data >> digit) & 0xff) as u8
}

/// The bytes of `data` from bit `digit` downwards, in steps of eight bits.
pub open spec fn bytes_from(data: u128, digit: u128) -> Seq<u8>
    decreases digit,
{
    if digit >= 8 {
        seq![byte_at(data, digit)] + bytes_from(data, (digit - 8) as u128)
    } else {
        seq![byte_at(data, digit)]
    }
}

/// The 32-bit word of `data` that starts `digit` bits above its lowest bit.
pub open spec fn word_at(data: u128, digit: u128) -> u32 {
    ((data >> digit) & 0xffff_ffff) as u32
}

/// The 32-bit words of `data` from bit `digit` downwards, in steps of 32 bits.
pub open spec fn words_from(data: u128, digit: u128) -> Seq<u32>
    decreases digit,
{
    if digit >= 32 {
        seq![word_at(data, digit)] + words_from(data, (digit - 32) as u128)
    } else {
        seq![word_at(data, digit)]
    }
}

/// A 32-bit value as four bytes, most significant first.
pub open spec fn be_bytes_u32(x: u32) -> Seq<u8> {
    bytes_from(x as u128, 24)
}

/// A 128-bit value as sixteen bytes, most significant first.
pub open spec fn be_bytes_u128(x: u128) -> Seq<u8> {
    bytes_from(x, 120)
}

/// The value that a sequence of bytes spells, most significant byte first.
/// Bytes beyond the sixteenth from the end fall off the top.
pub open spec fn be_value(s: Seq<u8>) -> u128
    decreases s.len(),
{
    if s.len() == 0 {
        0
    } else {
        (be_value(s.drop_last()) << 8) | (s.last() as u128)
    }
}

/// The one-byte additive checksum: the sum of the bytes modulo 256.
pub open spec fn checksum(s: Seq<u8>) -> u8
    decreases s.len(),
{
    if s.len() == 0 {
        0
    } else {
        ((checksum(s.drop_last()) + s.last()) % 256) as u8
    }
}

/// `bytes_from` yields one byte for `digit` and one for every full eight bits below it.
pub proof fn lemma_bytes_from_len(data: u128, digit: u128)
    ensures
        bytes_from(data, digit).len() == digit / 8 + 1,
    decreases digit,
{
    if digit >= 8 {
        lemma_bytes_from_len(data, (digit - 8) as u128);
    }
}

/// The byte of `bytes_from(data, digit)` at position `i` is the one that starts
/// `digit - 8 * i` bits up.
pub proof fn lemma_bytes_from_index(data: u128, digit: u128, i: int)
    requires
        0 <= i <= digit / 8,
    ensures
        bytes_from(data, digit).len() == digit / 8 + 1,
        bytes_from(data, digit)[i] == byte_at(data, (digit - 8 * i) as u128),
    decreases digit,
{
    lemma_bytes_from_len(data, digit);
    if digit >= 8 {
        lemma_bytes_from_len(data, (digit - 8) as u128);
        if i > 0 {
            lemma_bytes_from_index(data, (digit - 8) as u128, i - 1);
        }
    }
}

/// Reading back the first `k` bytes of a 128-bit value gives its top `k` bytes.
proof fn lemma_be_value_prefix(x: u128, k: int)
    requires
        1 <= k <= 16,
    ensures
        be_value(be_bytes_u128(x).take(k)) == x >> ((128 - 8 * k) as u128),
    decreases k,
{
    let s = be_bytes_u128(x);
    lemma_bytes_from_index(x, 120, k - 1);
    let p = s.take(k);
    assert(p.drop_last() =~= s.take(k - 1));
    assert(p.last() == byte_at(x, (128 - 8 * k) as u128));
    let sh: u128 = (128 - 8 * k) as u128;
    if k == 1 {
        assert(be_value(s.take(0)) == 0);
        assert(((0u128 << 8) | ((((x >> 120) & 0xff) as u8) as u128)) == x >> 120)
            by (bit_vector);
    } else {
        lemma_be_value_prefix(x, k - 1);
        let hi: u128 = (sh + 8) as u128;
        assert(sh <= 112 && hi == sh + 8 ==> (((x >> hi) << 8) | ((((x >> sh) & 0xff) as u8) as u128))
            == x >> sh) by (bit_vector);
    }
}

/// Sixteen bytes written from a value spell that value.
pub proof fn lemma_be_u128_round_trip(x: u128)
    ensures
        be_bytes_u128(x).len() == 16,
        be_value(be_bytes_u128(x)) == x,
{
    lemma_bytes_from_len(x, 120);
    lemma_be_value_prefix(x, 16);
    assert(be_bytes_u128(x).take(16) =~= be_bytes_u128(x));
    assert(x >> 0 == x) by (bit_vector);
}

/// Four bytes written from a value spell that value.
pub proof fn lemma_be_u32_round_trip(x: u32)
    ensures
        be_bytes_u32(x).len() == 4,
        be_value(be_bytes_u32(x)) == x,
{
    let s = be_bytes_u32(x);
    let w: u128 = x as u128;
    lemma_bytes_from_index(w, 24, 0);
    lemma_bytes_from_index(w, 24, 1);
    lemma_bytes_from_index(w, 24, 2);
    lemma_bytes_from_index(w, 24, 3);
    let s3 = s.drop_last();
    let s2 = s3.drop_last();
    let s1 = s2.drop_last();
    assert(s1.drop_last().len() == 0);
    assert(be_value(s1.drop_last()) == 0);
    let b0: u8 = s[0];
    let b1: u8 = s[1];
    let b2: u8 = s[2];
    let b3: u8 = s[3];
    assert(be_value(s1) == (0u128 << 8) | (b0 as u128));
    assert(be_value(s2) == (be_value(s1) << 8) | (b1 as u128));
    assert(be_value(s3) == (be_value(s2) << 8) | (b2 as u128));
    assert(be_value(s) == (be_value(s3) << 8) | (b3 as u128));
    assert(w < 0x1_0000_0000 && b0 == ((w >> 24) & 0xff) as u8 && b1 == ((w >> 16) & 0xff) as u8
        && b2 == ((w >> 8) & 0xff) as u8 && b3 == ((w >> 0) & 0xff) as u8 ==> ((((((((0u128 << 8)
        | (b0 as u128)) << 8) | (b1 as u128)) << 8) | (b2 as u128)) << 8) | (b3 as u128)) == w)
        by (bit_vector);
}

/// Adding modulo 256 may reduce either summand first.
proof fn lemma_add_mod_256(x: int, y: int, z: int)
    requires
        0 <= x < 256,
        0 <= y < 256,
        0 <= z < 256,
    ensures
        ((x + y) % 256 + z) % 256 == (x + (y + z) % 256) % 256,
{
}

/// The checksum of two runs of bytes, one after the other, is the sum of
/// their checksums modulo 256.
pub proof fn lemma_checksum_concat(a: Seq<u8>, b: Seq<u8>)
    ensures
        checksum(a + b) == (checksum(a) + checksum(b)) % 256,
    decreases b.len(),
{
    if b.len() == 0 {
        assert(a + b =~= a);
    } else {
        let front = b.drop_last();
        lemma_checksum_concat(a, front);
        assert((a + b).drop_last() =~= a + front);
        assert((a + b).last() == b.last());
        assert(checksum(a + b) == ((checksum(a + front) + b.last()) % 256) as u8);
        assert(checksum(b) == ((checksum(front) + b.last()) % 256) as u8);
        lemma_add_mod_256(checksum(a) as int, checksum(front) as int, b.last() as int);
    }
}

/// The checksum of a single byte is that byte.
pub proof fn lemma_checksum_single(b: u8)
    ensures
        checksum(seq![b]) == b,
{
    assert(seq![b].drop_last() =~= Seq::<u8>::empty());
    assert(checksum(seq![b].drop_last()) == 0);
}

/// Sums modulo 256 that differ in one summand below 256 differ.
proof fn lemma_mod_256_differs(h: int, x: int, y: int, t: int)
    requires
        0 <= h < 256,
        0 <= x < 256,
        0 <= y < 256,
        0 <= t < 256,
        x != y,
    ensures
        ((h + x) % 256 + t) % 256 != ((h + y) % 256 + t) % 256,
{
}

/// Changing one byte changes the checksum.
pub proof fn lemma_checksum_detects_change(s: Seq<u8>, i: int, b: u8)
    requires
        0 <= i < s.len(),
        b != s[i],
    ensures
        checksum(s.update(i, b)) != checksum(s),
{
    let head = s.take(i);
    let tail = s.skip(i + 1);
    let changed = s.update(i, b);
    assert(s =~= (head + seq![s[i]]) + tail);
    assert(changed =~= (head + seq![b]) + tail);
    lemma_checksum_single(s[i]);
    lemma_checksum_single(b);
    lemma_checksum_concat(head, seq![s[i]]);
    lemma_checksum_concat(head, seq![b]);
    lemma_checksum_concat(head + seq![s[i]], tail);
    lemma_checksum_concat(head + seq![b], tail);
    lemma_mod_256_differs(
        checksum(head) as int,
        s[i] as int,
        b as int,
        checksum(tail) as int,
    );
    assert(checksum(s) == (checksum(head + seq![s[i]]) + checksum(tail)) % 256);
    assert(checksum(changed) == (checksum(head + seq![b]) + checksum(tail)) % 256);
}

/// Converts bytes to a `String` with `String::from_utf8`, which succeeds
/// exactly on valid UTF-8 and then holds the characters that the bytes encode.
#[verifier::external_body]
pub(crate) fn string_from_utf8(bytes: Vec<u8>) -> (r: Option<String>)
    ensures
        r.is_some() <==> valid_utf8(bytes@),
        r.is_some() ==> r.unwrap()@ == decode_utf8(bytes@),
{
    String::from_utf8(bytes).ok()
}

/// Appends to `buf` the bytes of `data` from bit `digit` downwards and
/// returns a copy of the whole buffer. With `digit` 24 these are the four
/// bytes of `data`, most significant first.
pub fn u32_to_slice(data: u32, buf: &mut Vec<u8>, digit: u32) -> (r: Result<Vec<u8>, DbError>)
    requires
        digit < 32,
    ensures
        final(buf)@ == old(buf)@ + bytes_from(data as u128, digit as u128),
        r.is_ok(),
        r.unwrap()@ == final(buf)@,
    decreases digit,
{
    let a: u32 = (data >> digit) & 0xff;
    assert(((data >> digit) & 0xff) as u8 == (((data as u128) >> (digit as u128)) & 0xff) as u8)
        by (bit_vector)
        requires
            digit < 32,
    ;
    assert((data >> digit) & 0xff <= 0xff) by (bit_vector);
    buf.push(a as u8);
    if digit >= 8 {
        let r = u32_to_slice(data, buf, digit - 8);
        assert(buf@ =~= old(buf)@ + bytes_from(data as u128, digit as u128));
        r
    } else {
        assert(buf@ =~= old(buf)@ + bytes_from(data as u128, digit as u128));
        Ok(buf.clone())
    }
}

/// Appends to `buf` the bytes of `data` from bit `digit` downwards and
/// returns a copy of the whole buffer. With `digit` 120 these are the
/// sixteen bytes of `data`, most significant first.
pub fn u128_to_slice(data: u128, buf: &mut Vec<u8>, digit: u128) -> (r: Result<Vec<u8>, DbError>)
    requires
        digit < 128,
    ensures
        final(buf)@ == old(buf)@ + bytes_from(data, digit),
        r.is_ok(),
        r.unwrap()@ == final(buf)@,
    decreases digit,
{
    let a: u128 = (data >> digit) & 0xff;
    assert((data >> digit) & 0xff <= 0xff) by (bit_vector);
    buf.push(a as u8);
    if digit >= 8 {
        let r = u128_to_slice(data, buf, digit - 8);
        assert(buf@ =~= old(buf)@ + bytes_from(data, digit));
        r
    } else {
        assert(buf@ =~= old(buf)@ + bytes_from(data, digit));
        Ok(buf.clone())
    }
}

/// Appends to `buf` the 32-bit words of `data` from bit `digit` downwards
/// and returns a copy of the whole buffer. With `digit` 96 these are the
/// four words of `data`, most significant first.
pub fn u128_to_u32slice(data: u128, buf: &mut Vec<u32>, digit: u128) -> (r: Result<
    Vec<u32>,
    DbError,
>)
    requires
        digit < 128,
    ensures
        final(buf)@ == old(buf)@ + words_from(data, digit),
        r.is_ok(),
        r.unwrap()@ == final(buf)@,
    decreases digit,
{
    let a: u128 = (data >> digit) & 0xffff_ffff;
    assert((data >> digit) & 0xffff_ffff <= 0xffff_ffff) by (bit_vector);
    buf.push(a as u32);
    if digit >= 32 {
        let r = u128_to_u32slice(data, buf, digit - 32);
        assert(buf@ =~= old(buf)@ + words_from(data, digit));
        r
    } else {
        assert(buf@ =~= old(buf)@ + words_from(data, digit));
        Ok(buf.clone())
    }
}

} // verus!
