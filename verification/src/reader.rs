//! A reader that knows paragraphs only

use std::borrow::Cow;

use vstd::prelude::*;
use vstd::utf8::encode_utf8;

use crate::decode::{Error, Fault};
use crate::decoder::{is_blank, stream_of, LineTokens};
use crate::line_reader::{byte_lines, LineReader};
use crate::md::{Md, MdView};

verus! {

/// What the reader makes of a sequence of lines: every line that is not empty
/// is a paragraph of its own, and every line that is not text a fault.
pub open spec fn read_lines(lines: Seq<Option<Seq<char>>>) -> Seq<Result<MdView, Fault>>
    decreases lines.len(),
{
    if lines.len() == 0 {
        Seq::empty()
    } else {
        match lines[0] {
            None => seq![Err(Fault::InvalidData)] + read_lines(lines.drop_first()),
            Some(line) => if line.len() == 0 {
                read_lines(lines.drop_first())
            } else {
                stream_of(seq![MdView::Paragraph, MdView::Text(line)]) + read_lines(
                    lines.drop_first(),
                )
            },
        }
    }
}

/// Read one non-empty line: it is a paragraph of its own.
pub fn read_line<'a>(line: Cow<'a, str>) -> (r: LineTokens<'a>)
    requires
        line@.len() > 0,
    ensures
        r.tokens() == seq![MdView::Paragraph, MdView::Text(line@)],
        !r.paragraph_starting,
{
    LineTokens { first: Md::Paragraph, queued: Some(Md::Text(line)), paragraph_starting: false }
}

/// Markdown reader
pub struct Reader<'a> {
    line_reader: LineReader<'a>,
    queued_stack: Vec<Md<'a>>,
}

impl<'a> Reader<'a> {
    /// The reader holds at most one token back.
    pub closed spec fn wf(&self) -> bool {
        &&& self.line_reader.wf()
        &&& self.queued_stack@.len() <= 1
    }

    /// Everything the reader will still hand out, in order.
    pub closed spec fn pending(&self) -> Seq<Result<MdView, Fault>> {
        self.queued_stack@.map_values(|m: Md<'a>| Ok::<MdView, Fault>(m@)) + read_lines(
            self.line_reader.lines(),
        )
    }

    /// The next token or fault; `None` when nothing is left.
    pub fn next(&mut self) -> (r: Option<Result<Md<'a>, Error<'a>>>)
        requires
            old(self).wf(),
        ensures
            final(self).wf(),
            old(self).pending().len() == 0 ==> r is None && final(self).pending().len() == 0,
            old(self).pending().len() > 0 ==> final(self).pending() == old(
                self,
            ).pending().drop_first() && match r {
                Some(Ok(token)) => old(self).pending()[0] == Ok::<MdView, Fault>(token@),
                Some(Err(e)) => old(self).pending()[0] == Err::<MdView, Fault>(
                    Fault::InvalidData,
                ) && e == Error::Io(Fault::InvalidData),
                None => false,
            },
    {
        if let Some(queued) = self.queued_stack.pop() {
            assert(old(self).queued_stack@ =~= seq![queued]);
            assert(self.pending() =~= old(self).pending().drop_first());
            return Some(Ok(queued));
        }
        assert(self.queued_stack@ =~= Seq::empty());
        loop
            invariant
                self.wf(),
                self.queued_stack@.len() == 0,
                self.pending() == old(self).pending(),
            decreases self.line_reader.lines().len(),
        {
            let ghost lines = self.line_reader.lines();
            assert(self.pending() =~= read_lines(lines));
            match self.line_reader.next() {
                None => {
                    return None;
                },
                Some(Err(e)) => {
                    assert(self.pending() =~= old(self).pending().drop_first());
                    return Some(Err(e));
                },
                Some(Ok(line)) => {
                    if is_blank(&line) {
                        assert(self.pending() =~= read_lines(lines.drop_first()));
                    } else {
                        let tokens = read_line(line);
                        if let Some(queued) = tokens.queued {
                            self.queued_stack.push(queued);
                        }
                        assert(self.pending() =~= old(self).pending().drop_first());
                        return Some(Ok(tokens.first));
                    }
                },
            }
        }
    }
}

/// Create markdown reader from string slice
pub fn from_str(md: &str) -> (r: Reader<'_>)
    ensures
        r.wf(),
        r.pending() == read_lines(byte_lines(encode_utf8(md@))),
{
    from_slice(md.as_bytes())
}

/// Create markdown reader from byte slice
pub fn from_slice(md: &[u8]) -> (r: Reader<'_>)
    ensures
        r.wf(),
        r.pending() == read_lines(byte_lines(md@)),
{
    let r = Reader { line_reader: LineReader::from_slice(md), queued_stack: Vec::new() };
    assert(r.pending() =~= read_lines(byte_lines(md@)));
    r
}

} // verus!
