//! Little-endian integers read from the front of a byte slice.
use byteorder::{LittleEndian, ReadBytesExt};
use vstd::prelude::*;

verus! {

/// Value of the little-endian unsigned integer held by the bytes of `s`
/// (the first byte is the least significant one).
pub open spec fn le_value(s: Seq<u8>) -> nat
    decreases s.len(),
{
    if s.len() == 0 {
        0
    } else {
        s[0] as nat + 256 * le_value(s.drop_first())
    }
}

/// The little-endian field of `n` bytes that starts at byte `at` of `b`.
pub open spec fn le_field(b: Seq<u8>, at: int, n: int) -> nat {
    le_value(b.subrange(at, at + n))
}

/// The little-endian 16-bit word at byte `k`, spelled out byte by byte.
pub open spec fn u16_at(b: Seq<u8>, k: int) -> int {
    b[k] as int + 0x100 * b[k + 1] as int
}

/// The little-endian 32-bit word at byte `k`, spelled out byte by byte.
pub open spec fn u32_at(b: Seq<u8>, k: int) -> int {
    b[k] as int + 0x100 * b[k + 1] as int + 0x1_0000 * b[k + 2] as int + 0x100_0000 * b[k + 3] as int
}

/// The little-endian 64-bit word at byte `k`: the word at `k + 4` above the one at `k`.
pub open spec fn u64_at(b: Seq<u8>, k: int) -> int {
    u32_at(b, k) + 0x1_0000_0000 * u32_at(b, k + 4)
}

/// The fields of 1, 2, 4 and 8 bytes hold the little-endian words spelled out
/// byte by byte.
pub proof fn lemma_le_fields(b: Seq<u8>, k: int)
    ensures
        0 <= k && k + 1 <= b.len() ==> le_field(b, k, 1) == b[k] as int,
        0 <= k && k + 2 <= b.len() ==> le_field(b, k, 2) == u16_at(b, k),
        0 <= k && k + 4 <= b.len() ==> le_field(b, k, 4) == u32_at(b, k),
        0 <= k && k + 8 <= b.len() ==> le_field(b, k, 8) == u64_at(b, k),
{
    if 0 <= k && k + 1 <= b.len() {
        let s = b.subrange(k, k + 1);
        reveal_with_fuel(le_value, 2);
        assert(s.drop_first().len() == 0);
    }
    if 0 <= k && k + 2 <= b.len() {
        let s = b.subrange(k, k + 2);
        reveal_with_fuel(le_value, 3);
        assert(s.drop_first().drop_first().len() == 0);
    }
    if 0 <= k && k + 4 <= b.len() {
        lemma_le_word(b, k);
    }
    if 0 <= k && k + 8 <= b.len() {
        lemma_le_dword(b, k);
    }
}

proof fn lemma_le_word(b: Seq<u8>, k: int)
    requires
        0 <= k,
        k + 4 <= b.len(),
    ensures
        le_field(b, k, 4) == u32_at(b, k),
{
    let s = b.subrange(k, k + 4);
    let s1 = s.drop_first();
    let s2 = s1.drop_first();
    let s3 = s2.drop_first();
    let s4 = s3.drop_first();
    assert(s4.len() == 0);
    assert(le_value(s4) == 0);
    assert(le_value(s3) == s3[0] as nat + 256 * le_value(s4));
    assert(le_value(s2) == s2[0] as nat + 256 * le_value(s3));
    assert(le_value(s1) == s1[0] as nat + 256 * le_value(s2));
    assert(le_value(s) == s[0] as nat + 256 * le_value(s1));
}

proof fn lemma_le_dword(b: Seq<u8>, k: int)
    requires
        0 <= k,
        k + 8 <= b.len(),
    ensures
        le_field(b, k, 8) == u64_at(b, k),
{
    let s0 = b.subrange(k, k + 8);
    let s1 = s0.drop_first();
    let s2 = s1.drop_first();
    let s3 = s2.drop_first();
    let s4 = s3.drop_first();
    let s5 = s4.drop_first();
    let s6 = s5.drop_first();
    let s7 = s6.drop_first();
    let s8 = s7.drop_first();
    assert(s8.len() == 0);
    assert(le_value(s8) == 0);
    assert(le_value(s7) == s7[0] as nat + 256 * le_value(s8));
    assert(le_value(s6) == s6[0] as nat + 256 * le_value(s7));
    assert(le_value(s5) == s5[0] as nat + 256 * le_value(s6));
    assert(le_value(s4) == s4[0] as nat + 256 * le_value(s5));
    assert(le_value(s3) == s3[0] as nat + 256 * le_value(s4));
    assert(le_value(s2) == s2[0] as nat + 256 * le_value(s3));
    assert(le_value(s1) == s1[0] as nat + 256 * le_value(s2));
    assert(le_value(s0) == s0[0] as nat + 256 * le_value(s1));
}

/// What a successful read of `n` bytes from the front of `before` leaves behind.
pub open spec fn read_advances(before: Seq<u8>, after: Seq<u8>, n: int) -> bool {
    after == before.skip(n)
}

/// A field read at position `k` of a buffer, through a cursor that has
/// already moved past `k` bytes, is the field at `k` of the whole buffer.
pub proof fn lemma_cursor_field(s: Seq<u8>, k: int, n: int)
    requires
        0 <= k,
        0 <= n,
        k + n <= s.len(),
    ensures
        s.skip(k).take(n) == s.subrange(k, k + n),
        s.skip(k).skip(n) == s.skip(k + n),
{
    assert(s.skip(k).take(n) =~= s.subrange(k, k + n));
    assert(s.skip(k).skip(n) =~= s.skip(k + n));
}

/// Two 32-bit words joined into one 64-bit word, `hi` above `lo`, hold the
/// value `hi * 2^32 + lo`.
pub proof fn lemma_join_words(lo: u32, hi: u32)
    ensures
        (lo as u64 | ((hi as u64) << 0x20)) == hi as int * 0x1_0000_0000 + lo as int,
{
    assert((lo as u64 | ((hi as u64) << 0x20)) == (hi as u64) * 0x1_0000_0000u64 + (lo as u64))
        by (bit_vector);
}

/// `ReadBytesExt::read_u8` on a byte slice: takes the first byte when there is one;
/// on a slice that is too short it fails (`read_exact` reports `UnexpectedEof`).
#[verifier::external_body]
pub(crate) fn read_u8(input: &mut &[u8]) -> (r: Result<u8, std::io::Error>)
    ensures
        r is Ok <==> old(input)@.len() >= 1,
        r matches Ok(v) ==> v == le_value(old(input)@.take(1)) && read_advances(
            old(input)@,
            final(input)@,
            1,
        ),
{
    input.read_u8()
}

/// `ReadBytesExt::read_i8` on a byte slice: the first byte, taken as a signed
/// integer, when there is one; on an empty slice it fails.
#[verifier::external_body]
pub(crate) fn read_i8(input: &mut &[u8]) -> (r: Result<i8, std::io::Error>)
    ensures
        r is Ok <==> old(input)@.len() >= 1,
        r matches Ok(v) ==> v as u8 == old(input)@[0] && read_advances(
            old(input)@,
            final(input)@,
            1,
        ),
{
    input.read_i8()
}

/// `ReadBytesExt::read_u16::<LittleEndian>` on a byte slice: the first two bytes,
/// least significant first, when there are two; on a shorter slice it fails.
#[verifier::external_body]
pub(crate) fn read_u16_le(input: &mut &[u8]) -> (r: Result<u16, std::io::Error>)
    ensures
        r is Ok <==> old(input)@.len() >= 2,
        r matches Ok(v) ==> v == le_value(old(input)@.take(2)) && read_advances(
            old(input)@,
            final(input)@,
            2,
        ),
{
    input.read_u16::<LittleEndian>()
}

/// `ReadBytesExt::read_u32::<LittleEndian>` on a byte slice: the first four bytes,
/// least significant first, when there are four; on a shorter slice it fails.
#[verifier::external_body]
pub(crate) fn read_u32_le(input: &mut &[u8]) -> (r: Result<u32, std::io::Error>)
    ensures
        r is Ok <==> old(input)@.len() >= 4,
        r matches Ok(v) ==> v == le_value(old(input)@.take(4)) && read_advances(
            old(input)@,
            final(input)@,
            4,
        ),
{
    input.read_u32::<LittleEndian>()
}

/// `ReadBytesExt::read_u64::<LittleEndian>` on a byte slice: the first eight bytes,
/// least significant first, when there are eight; on a shorter slice it fails.
#[verifier::external_body]
pub(crate) fn read_u64_le(input: &mut &[u8]) -> (r: Result<u64, std::io::Error>)
    ensures
        r is Ok <==> old(input)@.len() >= 8,
        r matches Ok(v) ==> v == le_value(old(input)@.take(8)) && read_advances(
            old(input)@,
            final(input)@,
            8,
        ),
{
    input.read_u64::<LittleEndian>()
}

} // verus!
