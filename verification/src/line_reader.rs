//! Splitting a byte buffer into lines of text

use std::borrow::Cow;
use std::str::Utf8Error;

use vstd::prelude::*;
use vstd::slice::slice_subrange;
use vstd::utf8::{decode_utf8, valid_utf8};

use crate::decode::{Error, Fault};

verus! {

/// Index of the first `sep` in `s`, or `s.len()` where `s` holds none.
pub open spec fn first_index<T>(s: Seq<T>, sep: T) -> int
    decreases s.len(),
{
    if s.len() == 0 || s[0] == sep {
        0
    } else {
        1 + first_index(s.drop_first(), sep)
    }
}

/// The pieces of `s` between occurrences of `sep`. There is always one piece
/// more than there are separators, so a trailing separator is followed by an
/// empty piece.
pub open spec fn split<T>(s: Seq<T>, sep: T) -> Seq<Seq<T>>
    decreases s.len(),
{
    let k = first_index(s, sep);
    if 0 <= k < s.len() {
        seq![s.take(k)] + split(s.skip(k + 1), sep)
    } else {
        seq![s]
    }
}

/// The text of a line of bytes, or `None` where the bytes are not UTF-8.
pub open spec fn line_text(line: Seq<u8>) -> Option<Seq<char>> {
    if valid_utf8(line) {
        Some(decode_utf8(line))
    } else {
        None
    }
}

/// The lines of a byte buffer: what stands between its newline bytes, each
/// piece as text where it is valid UTF-8.
pub open spec fn byte_lines(bytes: Seq<u8>) -> Seq<Option<Seq<char>>> {
    split(bytes, 10u8).map_values(|l: Seq<u8>| line_text(l))
}

/// Lines that are all text.
pub open spec fn text_lines(lines: Seq<Seq<char>>) -> Seq<Option<Seq<char>>> {
    lines.map_values(|l: Seq<char>| Some(l))
}

/// `first_index` is the place `k` before which no separator stands and at
/// which one does, or the sequence ends.
pub proof fn lemma_first_index<T>(s: Seq<T>, sep: T, k: int)
    requires
        0 <= k <= s.len(),
        forall|i: int| 0 <= i < k ==> s[i] != sep,
        k == s.len() || s[k] == sep,
    ensures
        first_index(s, sep) == k,
    decreases k,
{
    if k > 0 {
        let t = s.drop_first();
        assert forall|i: int| 0 <= i < k - 1 implies t[i] != sep by {
            assert(t[i] == s[i + 1]);
        }
        lemma_first_index(t, sep, k - 1);
    }
}

/// The error of `std::str::from_utf8`. Nothing is read from it.
#[verifier::external_type_specification]
#[verifier::external_body]
pub struct ExUtf8Error(Utf8Error);

/// `std::str::from_utf8`: succeeds exactly on valid UTF-8, and the string it
/// hands out is the decoding of the bytes it was given.
#[verifier::external_body]
fn from_utf8<'a>(bytes: &'a [u8]) -> (r: Result<&'a str, Utf8Error>)
    ensures
        r is Ok <==> valid_utf8(bytes@),
        r matches Ok(s) ==> s@ == decode_utf8(bytes@),
{
    std::str::from_utf8(bytes)
}

/// A source of lines over a byte buffer.
pub struct LineReader<'a> {
    input: &'a [u8],
    pos: usize,
    done: bool,
}

impl<'a> LineReader<'a> {
    /// The read position lies within the buffer.
    pub closed spec fn wf(&self) -> bool {
        self.pos <= self.input@.len()
    }

    /// The bytes that have not been read yet, or `None` once the last line
    /// was handed out.
    pub closed spec fn unread(&self) -> Option<Seq<u8>> {
        if self.done {
            None
        } else {
            Some(self.input@.skip(self.pos as int))
        }
    }

    /// The lines that are still to come.
    pub open spec fn lines(&self) -> Seq<Option<Seq<char>>> {
        match self.unread() {
            Some(bytes) => byte_lines(bytes),
            None => Seq::empty(),
        }
    }

    /// A line source over `md`, split at each newline byte.
    pub fn from_slice(md: &'a [u8]) -> (r: Self)
        ensures
            r.wf(),
            r.unread() == Some(md@),
            r.lines() == byte_lines(md@),
    {
        LineReader { input: md, pos: 0, done: false }
    }

    /// The next line, as text borrowed from the buffer; a fault where its
    /// bytes are not UTF-8; `None` after the last line.
    pub fn next(&mut self) -> (r: Option<Result<Cow<'a, str>, Error<'a>>>)
        requires
            old(self).wf(),
        ensures
            final(self).wf(),
            old(self).lines().len() == 0 ==> r is None && final(self).lines() == old(
                self,
            ).lines(),
            old(self).lines().len() > 0 ==> final(self).lines() == old(self).lines().drop_first()
                && match r {
                Some(Ok(text)) => old(self).lines()[0] == Some(text@) && text is Borrowed,
                Some(Err(e)) => old(self).lines()[0] is None && e == Error::Io(
                    Fault::InvalidData,
                ),
                None => false,
            },
    {
        if self.done {
            return None;
        }
        let input = self.input;
        let start = self.pos;
        let mut end = start;
        while end < input.len() && input[end] != 10u8
            invariant
                start <= end <= input@.len(),
                forall|i: int| start <= i < end ==> input@[i] != 10u8,
            decreases input@.len() - end,
        {
            end += 1;
        }
        let line = slice_subrange(input, start, end);
        proof {
            let rest = input@.skip(start as int);
            assert forall|i: int| 0 <= i < end - start implies rest[i] != 10u8 by {
                assert(rest[i] == input@[start + i]);
            }
            lemma_first_index(rest, 10u8, end - start);
            assert(rest.take(end - start) =~= line@);
            if end < input@.len() {
                assert(rest.skip(end - start + 1) =~= input@.skip(end + 1));
            } else {
                assert(rest =~= line@);
            }
        }
        if end < input.len() {
            self.pos = end + 1;
        } else {
            self.done = true;
        }
        proof {
            let before = split(input@.skip(start as int), 10u8);
            assert(old(self).lines() == before.map_values(|l: Seq<u8>| line_text(l)));
            assert(before[0] == line@);
            if end < input@.len() {
                let after = split(input@.skip(end + 1), 10u8);
                assert(before == seq![line@] + after);
                assert(before.drop_first() =~= after);
                assert(self.lines() =~= old(self).lines().drop_first());
            } else {
                assert(before == seq![line@]);
                assert(self.lines() =~= old(self).lines().drop_first());
            }
        }
        match from_utf8(line) {
            Ok(text) => Some(Ok(Cow::Borrowed(text))),
            Err(_) => Some(Err(Error::Io(Fault::InvalidData))),
        }
    }
}

} // verus!
