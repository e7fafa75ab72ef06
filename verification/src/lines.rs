//! The lines of a file list's text, read as `BufRead::lines` reads them: split
//! at each line feed, a carriage return before the line feed dropped, a last
//! line without a line feed kept unless it is empty, and lines that are not
//! valid UTF-8 left out.
use vstd::prelude::*;
use vstd::utf8::{decode_utf8, valid_utf8};
use vstd::string::StringExecFns;
use crate::filelist::line_texts;

verus! {

/// The position of the first line feed at or after `i`, or the end of the text.
pub open spec fn line_break(t: Seq<u8>, i: int) -> int
    decreases t.len() - i,
{
    if i < 0 || i >= t.len() {
        t.len() as int
    } else if t[i] == 10 {
        i
    } else {
        line_break(t, i + 1)
    }
}

pub proof fn lemma_line_break_bounds(t: Seq<u8>, i: int)
    requires
        0 <= i <= t.len(),
    ensures
        i <= line_break(t, i) <= t.len(),
        line_break(t, i) < t.len() ==> t[line_break(t, i)] == 10,
    decreases t.len() - i,
{
    if i < t.len() && t[i] != 10 {
        lemma_line_break_bounds(t, i + 1);
    }
}

/// The bytes of the line that runs from `i` to the break `e`: a carriage return
/// just before a line feed is not part of it.
pub open spec fn line_bytes(t: Seq<u8>, i: int, e: int) -> Seq<u8> {
    let b = t.subrange(i, e);
    if e < t.len() && b.len() > 0 && b.last() == 13 {
        b.drop_last()
    } else {
        b
    }
}

/// The text lines from position `i` on.
pub open spec fn text_lines_from(t: Seq<u8>, i: int) -> Seq<Seq<char>>
    decreases t.len() + 1 - i,
{
    if i < 0 || i >= t.len() {
        Seq::empty()
    } else {
        let e = line_break(t, i);
        proof { lemma_line_break_bounds(t, i); }
        let b = line_bytes(t, i, e);
        let rest = text_lines_from(t, e + 1);
        if valid_utf8(b) {
            seq![decode_utf8(b)] + rest
        } else {
            rest
        }
    }
}

/// The text lines of the whole text.
pub open spec fn text_lines(t: Seq<u8>) -> Seq<Seq<char>> {
    text_lines_from(t, 0)
}

/// `std::str::from_utf8`. Claims, as its documentation states: it succeeds
/// exactly on valid UTF-8, and the string it gives is those bytes, that is
/// the characters they encode.
#[verifier::external_body]
fn utf8_str(bytes: &[u8]) -> (r: Option<&str>)
    ensures
        r is Some <==> valid_utf8(bytes@),
        r matches Some(s) ==> s@ == decode_utf8(bytes@),
{
    std::str::from_utf8(bytes).ok()
}

/// Finds the next line feed at or after `i` (see `line_break`).
fn line_break_at(t: &[u8], i: usize) -> (e: usize)
    requires
        i <= t@.len(),
    ensures
        e == line_break(t@, i as int),
{
    let mut j = i;
    while j < t.len() && t[j] != 10
        invariant
            i <= j <= t@.len(),
            line_break(t@, i as int) == line_break(t@, j as int),
        decreases t@.len() - j,
    {
        j = j + 1;
    }
    j
}

/// Splits the text of a file list into its lines (see `text_lines`).
pub fn file_list_lines(text: &[u8]) -> (r: Vec<String>)
    ensures
        line_texts(r@) == text_lines(text@),
{
    let mut out: Vec<String> = Vec::new();
    let mut i: usize = 0;
    while i < text.len()
        invariant
            i <= text@.len(),
            line_texts(out@) + text_lines_from(text@, i as int) == text_lines(text@),
        decreases text@.len() - i,
    {
        let e = line_break_at(text, i);
        proof { lemma_line_break_bounds(text@, i as int); }
        let mut stop = e;
        if e < text.len() && e > i && text[e - 1] == 13 {
            stop = e - 1;
        }
        let line = &text[i..stop];
        assert(line@ == line_bytes(text@, i as int, e as int));
        let ghost rest = text_lines_from(text@, e + 1);
        let ghost before = line_texts(out@);
        match utf8_str(line) {
            Some(s) => {
                let owned = String::from_str(s);
                out.push(owned);
                assert(line_texts(out@) == before.push(owned@));
                assert(before.push(owned@) + rest =~= before + (seq![owned@] + rest));
            },
            None => {},
        }
        if e < text.len() {
            i = e + 1;
        } else {
            i = e;
        }
    }
    assert(text_lines_from(text@, i as int) == Seq::<Seq<char>>::empty());
    assert(line_texts(out@) + Seq::<Seq<char>>::empty() =~= line_texts(out@));
    out
}

} // verus!
