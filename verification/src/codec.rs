//! Decompression of entry contents.
use std::io::Read;
use vstd::prelude::*;
use crate::error::NeoXIndexError;
use crate::inflate::zlib_stream_decodable;

verus! {

/// The bytes that `compress::lz4::decode_block` writes into an empty vector
/// when it decodes the LZ4 block `input` (a block it can decode, see
/// `lz4_block_decodable`).
pub uninterp spec fn lz4_block_decoded(input: Seq<u8>) -> Seq<u8>;

/// The bytes that `compress::zlib::Decoder` reads out of the zlib stream `input`,
/// or `None` where the decoder reports an error.
pub uninterp spec fn zlib_stream_decoded(input: Seq<u8>) -> Option<Seq<u8>>;

/// The length of an LZ4 run whose 4-bit code is `code`, read as `decode_block`
/// reads it from position `cur`: a code of 15 goes on into extension bytes, each
/// adding its value, up to and including the first byte that is not 255.
/// Gives the length and the position after it, or `None` where the input ends
/// inside the extension.
pub open spec fn lz4_run_length(s: Seq<u8>, cur: int, code: int) -> Option<(int, int)> {
    if code < 15 {
        Some((code, cur))
    } else {
        lz4_extension(s, cur, 15)
    }
}

/// The extension bytes of a run length, from position `cur`, added to `acc`.
pub open spec fn lz4_extension(s: Seq<u8>, cur: int, acc: int) -> Option<(int, int)>
    decreases s.len() - cur,
{
    if cur < 0 || cur >= s.len() {
        None
    } else if s[cur] == 255 {
        lz4_extension(s, cur + 1, acc + 255)
    } else {
        Some((acc + s[cur] as int, cur + 1))
    }
}

/// A run length's extension is read as LZ4 writes it: from `cur` on, a run of
/// 255 bytes, each adding 255, closed by one byte below 255 that adds its own
/// value; it is missing only where the input ends before such a byte.
pub proof fn lemma_lz4_extension_sum(s: Seq<u8>, cur: int, acc: int)
    requires
        0 <= cur,
    ensures
        lz4_extension(s, cur, acc) matches Some((l, c)) ==> {
            &&& cur < c <= s.len()
            &&& s[c - 1] < 255
            &&& forall|k: int| cur <= k < c - 1 ==> s[k] == 255
            &&& l == acc + 255 * (c - 1 - cur) + s[c - 1]
        },
        lz4_extension(s, cur, acc) is None <==> forall|k: int| cur <= k < s.len() ==> s[k] == 255,
    decreases s.len() - cur,
{
    if cur < s.len() && s[cur] == 255 {
        lemma_lz4_extension_sum(s, cur + 1, acc + 255);
    } else if cur < s.len() {
        assert(s[cur] != 255);
    }
}

/// A run length read from its 4-bit code: the code itself below 15; for 15,
/// 15 plus every extension byte (see `lemma_lz4_extension_sum`).
pub proof fn lemma_lz4_run_length_value(s: Seq<u8>, cur: int, code: int)
    requires
        0 <= cur,
        0 <= code <= 15,
    ensures
        code < 15 ==> lz4_run_length(s, cur, code) == Some((code, cur)),
        code == 15 ==> (lz4_run_length(s, cur, code) matches Some((l, c)) ==> {
            &&& cur < c <= s.len()
            &&& s[c - 1] < 255
            &&& forall|k: int| cur <= k < c - 1 ==> s[k] == 255
            &&& l == 15 + 255 * (c - 1 - cur) + s[c - 1]
        }),
        code == 15 ==> (lz4_run_length(s, cur, code) is None <==> forall|k: int|
            cur <= k < s.len() ==> s[k] == 255),
{
    lemma_lz4_extension_sum(s, cur, 15);
}

pub proof fn lemma_lz4_extension_grows(s: Seq<u8>, cur: int, acc: int)
    ensures
        lz4_extension(s, cur, acc) is Some ==> lz4_extension(s, cur, acc)->Some_0.0 >= acc
            && lz4_extension(s, cur, acc)->Some_0.1 > cur
            && lz4_extension(s, cur, acc)->Some_0.1 <= s.len(),
    decreases s.len() - cur,
{
    if 0 <= cur < s.len() && s[cur] == 255 {
        lemma_lz4_extension_grows(s, cur + 1, acc + 255);
    }
}

pub proof fn lemma_lz4_run_length_grows(s: Seq<u8>, cur: int, code: int)
    requires
        0 <= cur <= s.len(),
        0 <= code,
    ensures
        lz4_run_length(s, cur, code) is Some ==> lz4_run_length(s, cur, code)->Some_0.1 >= cur
            && lz4_run_length(s, cur, code)->Some_0.1 <= s.len()
            && lz4_run_length(s, cur, code)->Some_0.0 >= 0,
{
    if code >= 15 {
        lemma_lz4_extension_grows(s, cur, 15);
    }
}

/// Whether `decode_block` reads the rest of the block `s` from position `cur`,
/// having written `end` bytes, without a fault: each sequence is a token byte,
/// a literal run (its length from the token's high half), and, unless the
/// block ends after the literals, a two-byte little-endian offset and a match
/// run (its length from the token's low half, plus 4). Every length byte and
/// every literal lies inside the block; each offset points back at least one
/// and at most `end` bytes into what was written; and the output stays within
/// what a vector can hold.
pub open spec fn lz4_walk(s: Seq<u8>, cur: int, end: int) -> bool
    decreases s.len() - cur,
{
    if cur < 0 || cur >= s.len() {
        true
    } else {
        let code = s[cur] as int;
        match lz4_run_length(s, cur + 1, code / 16) {
            None => false,
            Some((lit, c2)) => {
                let c3 = c2 + lit;
                let e1 = end + lit;
                if c3 > s.len() || lit > usize::MAX || e1 > isize::MAX {
                    false
                } else if c3 == s.len() {
                    true
                } else if c3 + 2 > s.len() {
                    false
                } else {
                    let back = s[c3] as int + 256 * s[c3 + 1] as int;
                    if back < 1 || back > e1 {
                        false
                    } else {
                        match lz4_run_length(s, c3 + 2, code % 16) {
                            None => false,
                            Some((m, c5)) => {
                                proof {
                                    lemma_lz4_run_length_grows(s, cur + 1, code / 16);
                                    lemma_lz4_run_length_grows(s, c3 + 2, code % 16);
                                    assert(c5 > cur);
                                }
                                if m + 4 > usize::MAX || e1 + m + 4 > isize::MAX {
                                    false
                                } else {
                                    lz4_walk(s, c5, e1 + m + 4)
                                }
                            },
                        }
                    }
                }
            },
        }
    }
}

/// A block that `compress::lz4::decode_block` decodes without a fault (see `lz4_walk`).
pub open spec fn lz4_block_decodable(s: Seq<u8>) -> bool {
    lz4_walk(s, 0, 0)
}

/// A block of one sequence with short runs (both codes below 15): a token, its
/// literals and a two-byte offset, the match being the last thing in the block.
/// The decoder reads it without a fault exactly when the offset points back at
/// least one and at most as many bytes as the literals wrote.
pub proof fn lemma_lz4_single_sequence(s: Seq<u8>)
    requires
        s.len() >= 1,
        s[0] / 16 < 15,
        s[0] % 16 < 15,
        s.len() == 3 + s[0] / 16,
    ensures
        lz4_block_decodable(s) <==> ({
            let lit = s[0] / 16;
            let back = s[1 + lit] as int + 256 * s[2 + lit] as int;
            1 <= back <= lit
        }),
{
    let lit = s[0] as int / 16;
    assert(lz4_run_length(s, 1, lit) == Some((lit, 1int)));
    assert(lz4_run_length(s, 3 + lit, s[0] as int % 16) == Some((s[0] as int % 16, 3 + lit)));
    assert(lz4_walk(s, s.len() as int, lit + s[0] as int % 16 + 4));
}

/// A block of literals alone, fewer than 15 of them: the decoder reads it
/// without a fault.
pub proof fn lemma_lz4_literal_block(s: Seq<u8>)
    requires
        s.len() >= 1,
        s[0] == 16 * (s.len() - 1),
        s.len() - 1 < 15,
    ensures
        lz4_block_decodable(s),
{
    assert(lz4_run_length(s, 1, s.len() - 1) == Some((s.len() - 1, 1int)));
}

/// Reads a run length (see `lz4_run_length`); `None` where it cannot be read or
/// does not fit in a `usize`.
fn lz4_run_length_of(s: &[u8], cur: usize, code: u8) -> (r: Option<(usize, usize)>)
    requires
        cur <= s@.len(),
        code < 16,
    ensures
        r matches Some((l, c)) ==> lz4_run_length(s@, cur as int, code as int) == Some((l as int, c as int)),
        r is None ==> match lz4_run_length(s@, cur as int, code as int) {
            None => true,
            Some((l, _)) => l > usize::MAX,
        },
{
    if code < 15 {
        return Some((code as usize, cur));
    }
    let mut acc: usize = 15;
    let mut c = cur;
    while c < s.len() && s[c] == 255
        invariant
            code == 15,
            cur <= c <= s@.len(),
            lz4_extension(s@, cur as int, 15) == lz4_extension(s@, c as int, acc as int),
        decreases s@.len() - c,
    {
        assert(lz4_extension(s@, c as int, acc as int) == lz4_extension(s@, c + 1, acc + 255));
        if acc > usize::MAX - 255 {
            proof {
                lemma_lz4_extension_grows(s@, c + 1, acc + 255);
                let r = lz4_extension(s@, c + 1, acc + 255);
                assert(r is Some ==> r->Some_0.0 > usize::MAX);
                assert(lz4_run_length(s@, cur as int, code as int) == r);
            }
            return None;
        }
        acc = acc + 255;
        c = c + 1;
    }
    if c >= s.len() {
        return None;
    }
    if s[c] as usize > usize::MAX - acc {
        return None;
    }
    Some((acc + s[c] as usize, c + 1))
}

/// Whether `compress::lz4::decode_block` decodes the block without a fault
/// (see `lz4_block_decodable`).
pub fn lz4_block_is_decodable(s: &[u8]) -> (r: bool)
    ensures
        r == lz4_block_decodable(s@),
{
    let max_len = isize::MAX as usize;
    let mut cur: usize = 0;
    let mut end: usize = 0;
    while cur < s.len()
        invariant
            cur <= s@.len(),
            end <= isize::MAX,
            max_len == isize::MAX,
            lz4_block_decodable(s@) == lz4_walk(s@, cur as int, end as int),
        decreases s@.len() - cur,
    {
        let code = s[cur];
        let (lit, c2) = match lz4_run_length_of(s, cur + 1, code / 16) {
            Some(x) => x,
            None => return false,
        };
        proof { lemma_lz4_run_length_grows(s@, cur + 1, (code / 16) as int); }
        if lit > s.len() - c2 || lit > max_len - end {
            return false;
        }
        let c3 = c2 + lit;
        let e1 = end + lit;
        if c3 == s.len() {
            return true;
        }
        if s.len() - c3 < 2 {
            return false;
        }
        let back = s[c3] as usize + 256 * s[c3 + 1] as usize;
        if back < 1 || back > e1 {
            return false;
        }
        let (m, c5) = match lz4_run_length_of(s, c3 + 2, code % 16) {
            Some(x) => x,
            None => return false,
        };
        proof { lemma_lz4_run_length_grows(s@, c3 + 2, (code % 16) as int); }
        if m > max_len - 4 || m + 4 > max_len - e1 {
            return false;
        }
        cur = c5;
        end = e1 + m + 4;
    }
    true
}

/// `compress::lz4::decode_block`, into a fresh vector.
/// Claims: on a block that it decodes without a fault (`lz4_block_decodable`),
/// the decoded bytes are a function of the input alone (every byte it copies
/// has been written before, as each offset is at least one), and the count that
/// the call returns is the length of what it wrote (its `end`, to which it
/// sizes the output). Other blocks, on which it indexes past its input,
/// subtracts past zero or copies unwritten bytes, are excluded. Left unsaid:
/// an allocation that the machine cannot serve aborts the process.
#[verifier::external_body]
fn lz4_decode_block(input: &[u8]) -> (r: (usize, Vec<u8>))
    requires
        lz4_block_decodable(input@),
    ensures
        r.1@ == lz4_block_decoded(input@),
        r.0 == r.1@.len(),
{
    let mut decompressed = Vec::new();
    let len = compress::lz4::decode_block(input, &mut decompressed);
    (len, decompressed)
}

/// `compress::zlib::Decoder::new(..).read_to_end(..)` over the bytes of `input`.
/// Claims: whether it succeeds, and what it reads out, are a function of the
/// input alone; what a failing read had written so far is dropped. Streams on
/// which the crate's inflater panics (a fixed-code length symbol 286, which
/// indexes its length table one past the end; a repeat code that writes past
/// its 316 code lengths; a distance symbol past its 30 table rows) are
/// excluded, see `zlib_stream_decodable`.
#[verifier::external_body]
fn zlib_decode(input: &[u8]) -> (r: Option<Vec<u8>>)
    requires
        zlib_stream_decodable(input@),
    ensures
        r is Some <==> zlib_stream_decoded(input@) is Some,
        r matches Some(v) ==> zlib_stream_decoded(input@) == Some(v@),
{
    let mut decompressed = Vec::new();
    match compress::zlib::Decoder::new(std::io::Cursor::new(input)).read_to_end(&mut decompressed) {
        Ok(_) => Some(decompressed),
        Err(_) => None,
    }
}

/// The content that an LZ4 decoding gives, from the count of bytes that the
/// decoder produced and the bytes themselves: nothing decoded is a failure.
pub fn lz4_outcome(len: usize, decompressed: Vec<u8>) -> (r: Result<Vec<u8>, NeoXIndexError>)
    ensures
        len < 1 ==> r matches Err(NeoXIndexError::DecompressFailedLZ4),
        len >= 1 ==> r == Ok::<Vec<u8>, NeoXIndexError>(decompressed),
{
    if len < 1 {
        return Err(NeoXIndexError::DecompressFailedLZ4);
    }
    Ok(decompressed)
}

/// The content that a zlib decoding gives, from what the decoder read out
/// (`None` where it failed).
pub fn zlib_outcome(decoded: Option<Vec<u8>>) -> (r: Result<Vec<u8>, NeoXIndexError>)
    ensures
        decoded is None ==> r matches Err(NeoXIndexError::DecompressFailedZLib),
        decoded matches Some(v) ==> r == Ok::<Vec<u8>, NeoXIndexError>(v),
{
    match decoded {
        Some(v) => Ok(v),
        None => Err(NeoXIndexError::DecompressFailedZLib),
    }
}

/// Decodes an LZ4 block.
pub fn decompress_lz4(input: &[u8]) -> (r: Result<Vec<u8>, NeoXIndexError>)
    requires
        lz4_block_decodable(input@),
    ensures
        lz4_block_decoded(input@).len() == 0 ==> r matches Err(NeoXIndexError::DecompressFailedLZ4),
        lz4_block_decoded(input@).len() > 0 ==> (r matches Ok(v) && v@ == lz4_block_decoded(input@)),
{
    let (len, decompressed) = lz4_decode_block(input);
    lz4_outcome(len, decompressed)
}

/// Decodes a zlib stream.
pub fn decompress_zlib(input: &[u8]) -> (r: Result<Vec<u8>, NeoXIndexError>)
    requires
        zlib_stream_decodable(input@),
    ensures
        zlib_stream_decoded(input@) is None ==> r matches Err(NeoXIndexError::DecompressFailedZLib),
        zlib_stream_decoded(input@) matches Some(d) ==> (r matches Ok(v) && v@ == d),
{
    zlib_outcome(zlib_decode(input))
}

/// The text of a file list held in an entry: its zlib decoding where the
/// content is a zlib stream, the content itself where it is not.
pub fn filelist_text(content: &[u8]) -> (r: Vec<u8>)
    requires
        zlib_stream_decodable(content@),
    ensures
        r@ == match zlib_stream_decoded(content@) {
            Some(d) => d,
            None => content@,
        },
{
    match zlib_decode(content) {
        Some(d) => d,
        None => vstd::slice::slice_to_vec(content),
    }
}

/// Whether the content is a zlib stream that decodes without error.
pub fn is_zlib_stream(content: &[u8]) -> (r: bool)
    requires
        zlib_stream_decodable(content@),
    ensures
        r == zlib_stream_decoded(content@) is Some,
{
    zlib_decode(content).is_some()
}

} // verus!
