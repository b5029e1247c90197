//! Decoding lines of text into markdown tokens

use std::borrow::Cow;

use vstd::prelude::*;
use vstd::string::StrSliceExecFns;
use vstd::utf8::encode_utf8;

use crate::decode::{Error, Fault};
use crate::line_reader::{byte_lines, split, text_lines, LineReader};
use crate::proofs::text::lemma_encoded_lines;
use crate::md::{views, Md, MdView};

verus! {

/// Whether `c` has the Unicode property `White_Space`.
pub open spec fn is_white_space(c: char) -> bool {
    let u = c as u32;
    (0x09 <= u <= 0x0D) || u == 0x20 || u == 0x85 || u == 0xA0 || u == 0x1680 || (0x2000 <= u
        <= 0x200A) || u == 0x2028 || u == 0x2029 || u == 0x202F || u == 0x205F || u == 0x3000
}

/// Number of white-space characters that `s` starts with.
pub open spec fn white_space_run(s: Seq<char>) -> nat
    decreases s.len(),
{
    if s.len() > 0 && is_white_space(s[0]) {
        1 + white_space_run(s.drop_first())
    } else {
        0
    }
}

/// `s` without the white space it starts with.
pub open spec fn trimmed_start(s: Seq<char>) -> Seq<char> {
    s.skip(white_space_run(s) as int)
}

/// Number of `#` characters that `line` starts with.
pub open spec fn hashes(line: Seq<char>) -> nat
    decreases line.len(),
{
    if line.len() > 0 && line[0] == '#' {
        1 + hashes(line.drop_first())
    } else {
        0
    }
}

/// The heading level that `line` announces: it starts with one to six `#`,
/// and a space or the end of the line follows them. Seven or more `#` announce
/// no heading.
pub open spec fn heading_level(line: Seq<char>) -> Option<nat> {
    let h = hashes(line);
    if 1 <= h <= 6 && (line.len() == h || line[h as int] == ' ') {
        Some(h)
    } else {
        None
    }
}

/// The title of a heading line of the given level: what follows the marker,
/// without leading white space.
pub open spec fn heading_title(line: Seq<char>, level: nat) -> Seq<char> {
    trimmed_start(line.skip(level as int))
}

/// The token that opens a heading of the given level.
pub open spec fn heading_token(level: nat) -> MdView {
    if level == 1 {
        MdView::Heading1
    } else if level == 2 {
        MdView::Heading2
    } else if level == 3 {
        MdView::Heading3
    } else if level == 4 {
        MdView::Heading4
    } else if level == 5 {
        MdView::Heading5
    } else {
        MdView::Heading6
    }
}

/// The tokens that one non-empty line decodes to. `starting` says whether the
/// line begins a new paragraph.
pub open spec fn line_tokens(line: Seq<char>, starting: bool) -> Seq<MdView> {
    match heading_level(line) {
        Some(level) => seq![heading_token(level), MdView::Text(heading_title(line, level))],
        None => if starting {
            seq![MdView::Paragraph, MdView::Text(line)]
        } else {
            seq![MdView::Text(line)]
        },
    }
}

/// Whether the line after a non-empty `line` begins a new paragraph: it does
/// after a heading, and does not inside a paragraph.
pub open spec fn starting_after(line: Seq<char>) -> bool {
    heading_level(line) is Some
}

/// What a sequence of lines decodes to: the tokens of the lines in order, up
/// to and including the fault of the first line that is not text. Empty lines
/// give no token and make the next line begin a paragraph.
pub open spec fn decode_lines(lines: Seq<Option<Seq<char>>>, starting: bool) -> Seq<
    Result<MdView, Fault>,
>
    decreases lines.len(),
{
    if lines.len() == 0 {
        Seq::empty()
    } else {
        match lines[0] {
            None => seq![Err(Fault::InvalidData)],
            Some(line) => if line.len() == 0 {
                decode_lines(lines.drop_first(), true)
            } else {
                stream_of(line_tokens(line, starting)) + decode_lines(lines.drop_first(), starting_after(line))
            },
        }
    }
}

/// The stream in which every token of `tokens` is handed out and no fault
/// occurs.
pub open spec fn stream_of(tokens: Seq<MdView>) -> Seq<Result<MdView, Fault>> {
    tokens.map_values(|t: MdView| Ok::<MdView, Fault>(t))
}

/// How many lines are read for one token: the empty lines at the start, and
/// the first line that is not empty.
pub open spec fn lines_read(lines: Seq<Option<Seq<char>>>) -> nat
    decreases lines.len(),
{
    if lines.len() == 0 {
        0
    } else if lines[0] == Some(Seq::<char>::empty()) {
        1 + lines_read(lines.drop_first())
    } else {
        1
    }
}

/// What a byte buffer decodes to.
pub open spec fn decode(bytes: Seq<u8>) -> Seq<Result<MdView, Fault>> {
    decode_lines(byte_lines(bytes), true)
}

/// What a text decodes to. Its lines are text, so no fault occurs.
pub open spec fn decode_text(text: Seq<char>) -> Seq<Result<MdView, Fault>> {
    decode_lines(text_lines(split(text, '\n')), true)
}

/// A line that starts with `k` hashes has at least `k` of them, and exactly
/// `k` where the run ends there.
pub proof fn lemma_hashes(line: Seq<char>, k: int)
    requires
        0 <= k <= line.len(),
        forall|i: int| 0 <= i < k ==> line[i] == '#',
    ensures
        hashes(line) >= k,
        (k == line.len() || line[k] != '#') ==> hashes(line) == k,
    decreases k,
{
    if k > 0 {
        let t = line.drop_first();
        assert forall|i: int| 0 <= i < k - 1 implies t[i] == '#' by {
            assert(t[i] == line[i + 1]);
        }
        lemma_hashes(t, k - 1);
    }
}

/// After `k` empty lines, what is read goes on with the lines after them.
pub proof fn lemma_lines_read(lines: Seq<Option<Seq<char>>>, k: int)
    requires
        0 <= k <= lines.len(),
        forall|i: int| 0 <= i < k ==> lines[i] == Some(Seq::<char>::empty()),
    ensures
        lines_read(lines) == k + lines_read(lines.skip(k)),
    decreases k,
{
    if k == 0 {
        assert(lines.skip(0) =~= lines);
    } else {
        let rest = lines.drop_first();
        assert forall|i: int| 0 <= i < k - 1 implies rest[i] == Some(Seq::<char>::empty()) by {
            assert(rest[i] == lines[i + 1]);
        }
        lemma_lines_read(rest, k - 1);
        assert(rest.skip(k - 1) =~= lines.skip(k));
    }
}

/// `str::trim_start`: the slice that is left when the leading characters with
/// the Unicode property `White_Space` are taken away.
#[verifier::external_body]
fn trim_start<'a>(s: &'a str) -> (r: &'a str)
    ensures
        r@ == trimmed_start(s@),
{
    s.trim_start()
}

/// The heading that `line` announces, as its level and title, if it does.
fn heading_of<'a>(line: &'a str) -> (r: Option<(usize, &'a str)>)
    ensures
        match r {
            Some((level, title)) => heading_level(line@) == Some(level as nat) && title@
                == heading_title(line@, level as nat),
            None => heading_level(line@) is None,
        },
{
    let n = line.unicode_len();
    let mut h: usize = 0;
    while h < n && h < 7 && line.get_char(h) == '#'
        invariant
            n == line@.len(),
            h <= n,
            h <= 7,
            forall|i: int| 0 <= i < h ==> line@[i] == '#',
        decreases 7 - h,
    {
        h += 1;
    }
    proof {
        lemma_hashes(line@, h as int);
    }
    if h == 0 || h > 6 {
        return None;
    }
    if h < n && line.get_char(h) != ' ' {
        return None;
    }
    let rest = line.substring_char(h, n);
    assert(rest@ == line@.skip(h as int));
    Some((h, trim_start(rest)))
}

/// The token that opens a heading of the given level.
fn heading_md<'a>(level: usize) -> (r: Md<'a>)
    requires
        1 <= level <= 6,
    ensures
        r@ == heading_token(level as nat),
{
    if level == 1 {
        Md::Heading1
    } else if level == 2 {
        Md::Heading2
    } else if level == 3 {
        Md::Heading3
    } else if level == 4 {
        Md::Heading4
    } else if level == 5 {
        Md::Heading5
    } else {
        Md::Heading6
    }
}

/// The tokens of one line: the first is handed out at once, the second, if
/// there is one, after it.
pub struct LineTokens<'a> {
    /// The token that the line opens with
    pub first: Md<'a>,
    /// The token to hand out next, if the line gave two
    pub queued: Option<Md<'a>>,
    /// Whether the line after this one begins a new paragraph
    pub paragraph_starting: bool,
}

impl<'a> LineTokens<'a> {
    /// The tokens in the order in which they are handed out.
    pub open spec fn tokens(&self) -> Seq<MdView> {
        match self.queued {
            Some(second) => seq![self.first@, second@],
            None => seq![self.first@],
        }
    }

    /// Whether the tokens copy nothing.
    pub open spec fn is_borrowed(&self) -> bool {
        &&& self.first.is_borrowed()
        &&& self.queued matches Some(second) ==> second.is_borrowed()
    }

    /// Whether the tokens borrow nothing.
    pub open spec fn is_owned(&self) -> bool {
        &&& self.first.is_owned()
        &&& self.queued matches Some(second) ==> second.is_owned()
    }
}

/// Decode one non-empty line. `paragraph_starting` says whether the line
/// begins a new paragraph. The tokens of a borrowed line borrow from it; those
/// of an owned line own their text.
pub fn decode_line<'a>(line: Cow<'a, str>, paragraph_starting: bool) -> (r: LineTokens<'a>)
    requires
        line@.len() > 0,
    ensures
        r.tokens() == line_tokens(line@, paragraph_starting),
        r.paragraph_starting == starting_after(line@),
        line is Borrowed ==> r.is_borrowed(),
        line is Owned ==> r.is_owned(),
{
    let found: Option<(usize, Cow<'a, str>)> = match &line {
        Cow::Borrowed(text) => match heading_of(text) {
            Some((level, title)) => Some((level, Cow::Borrowed(title))),
            None => None,
        },
        Cow::Owned(text) => match heading_of(text.as_str()) {
            Some((level, title)) => Some((level, Cow::Owned(title.to_owned()))),
            None => None,
        },
    };
    match found {
        Some((level, title)) => LineTokens {
            first: heading_md(level),
            queued: Some(Md::Text(title)),
            paragraph_starting: true,
        },
        None => if paragraph_starting {
            LineTokens {
                first: Md::Paragraph,
                queued: Some(Md::Text(line)),
                paragraph_starting: false,
            }
        } else {
            LineTokens { first: Md::Text(line), queued: None, paragraph_starting: false }
        },
    }
}

/// Whether the text is empty.
pub(crate) fn is_blank(line: &Cow<'_, str>) -> (r: bool)
    ensures
        r == (line@.len() == 0),
{
    match line {
        Cow::Borrowed(text) => text.is_empty(),
        Cow::Owned(text) => text.as_str().is_empty(),
    }
}

/// Markdown decoder
pub struct Decoder<'a> {
    line_reader: LineReader<'a>,
    paragraph_starting: bool,
    queued_stack: Vec<Md<'a>>,
    failed: bool,
}

impl<'a> Decoder<'a> {
    /// The decoder holds at most one token back, and none after a fault;
    /// the token it holds back borrows its text from the input.
    pub closed spec fn wf(&self) -> bool {
        &&& self.line_reader.wf()
        &&& self.queued_stack@.len() <= 1
        &&& self.failed ==> self.queued_stack@.len() == 0
        &&& forall|i: int|
            0 <= i < self.queued_stack@.len() ==> (#[trigger] self.queued_stack@[i]).is_borrowed()
    }

    /// The lines that the decoder has not read yet. After a fault it reads
    /// no more.
    pub closed spec fn unread(&self) -> Seq<Option<Seq<char>>> {
        if self.failed {
            Seq::empty()
        } else {
            self.line_reader.lines()
        }
    }

    /// Whether the decoder holds a token back.
    pub closed spec fn holds_token(&self) -> bool {
        self.queued_stack@.len() > 0
    }

    /// Everything the decoder will still hand out, in order: the token it
    /// holds back, then what the unread lines decode to. After a fault
    /// nothing is left.
    pub closed spec fn pending(&self) -> Seq<Result<MdView, Fault>> {
        if self.failed {
            Seq::empty()
        } else {
            self.queued_stack@.map_values(|m: Md<'a>| Ok::<MdView, Fault>(m@)) + decode_lines(
                self.line_reader.lines(),
                self.paragraph_starting,
            )
        }
    }

    /// Create markdown decoder from string slice.
    pub fn from_str(md: &'a str) -> (r: Self)
        ensures
            r.wf(),
            r.pending() == decode_text(md@),
            r.pending() == decode(encode_utf8(md@)),
            r.unread() == byte_lines(encode_utf8(md@)),
            !r.holds_token(),
    {
        proof {
            lemma_encoded_lines(md@);
        }
        Self::from_slice(md.as_bytes())
    }

    /// Create markdown decoder from byte slice.
    pub fn from_slice(md: &'a [u8]) -> (r: Self)
        ensures
            r.wf(),
            r.pending() == decode(md@),
            r.unread() == byte_lines(md@),
            !r.holds_token(),
    {
        let r = Decoder {
            line_reader: LineReader::from_slice(md),
            paragraph_starting: true,
            queued_stack: Vec::new(),
            failed: false,
        };
        assert(r.pending() =~= decode(md@));
        r
    }

    /// The next token, or the fault that ends the decoding; `None` when
    /// nothing is left. The text of a token is a borrow from the input. A
    /// token that was held back is handed out without reading; else the
    /// decoder reads up to the first line that is not empty, and no further.
    pub fn next(&mut self) -> (r: Option<Result<Md<'a>, Error<'a>>>)
        requires
            old(self).wf(),
        ensures
            final(self).wf(),
            r matches Some(Ok(token)) ==> token.is_borrowed(),
            final(self).unread() == if r is Some && r->0 is Err {
                Seq::empty()
            } else if old(self).holds_token() {
                old(self).unread()
            } else {
                old(self).unread().skip(lines_read(old(self).unread()) as int)
            },
            old(self).pending().len() == 0 ==> r is None && final(self).pending().len() == 0,
            old(self).pending().len() > 0 ==> final(self).pending() == old(
                self,
            ).pending().drop_first() && match r {
                Some(Ok(token)) => old(self).pending()[0] == Ok::<MdView, Fault>(token@),
                Some(Err(e)) => old(self).pending()[0] == Err::<MdView, Fault>(
                    Fault::InvalidData,
                ) && e == Error::Io(Fault::InvalidData),
                None => false,
            },
    {
        if self.failed {
            assert(old(self).unread().skip(0) =~= old(self).unread());
            return None;
        }
        if let Some(queued) = self.queued_stack.pop() {
            assert(old(self).queued_stack@ =~= seq![queued]);
            assert(self.pending() =~= old(self).pending().drop_first());
            return Some(Ok(queued));
        }
        assert(self.queued_stack@ =~= Seq::empty());
        let ghost all = self.line_reader.lines();
        let ghost mut skipped: int = 0;
        assert(all.skip(0) =~= all);
        loop
            invariant
                self.wf(),
                !self.failed,
                self.queued_stack@.len() == 0,
                self.pending() == old(self).pending(),
                all == old(self).unread(),
                !old(self).holds_token(),
                0 <= skipped <= all.len(),
                self.line_reader.lines() == all.skip(skipped),
                forall|i: int| 0 <= i < skipped ==> all[i] == Some(Seq::<char>::empty()),
            decreases self.line_reader.lines().len(),
        {
            let ghost before = *self;
            let ghost lines = self.line_reader.lines();
            assert(self.pending() =~= decode_lines(lines, self.paragraph_starting));
            proof {
                lemma_lines_read(all, skipped);
                if lines.len() > 0 {
                    assert(lines.drop_first() =~= all.skip(skipped + 1));
                    assert(lines[0] == all[skipped]);
                }
            }
            match self.line_reader.next() {
                None => {
                    return None;
                },
                Some(Err(e)) => {
                    self.failed = true;
                    assert(old(self).pending() =~= seq![Err::<MdView, Fault>(Fault::InvalidData)]);
                    return Some(Err(e));
                },
                Some(Ok(line)) => {
                    if is_blank(&line) {
                        self.paragraph_starting = true;
                        assert(self.pending() =~= decode_lines(lines.drop_first(), true));
                        assert(line@ =~= Seq::<char>::empty());
                        proof {
                            skipped = skipped + 1;
                        }
                    } else {
                        let tokens = decode_line(line, self.paragraph_starting);
                        let ghost emitted = line_tokens(lines[0]->0, before.paragraph_starting);
                        let ghost rest = decode_lines(lines.drop_first(), tokens.paragraph_starting);
                        assert(old(self).pending() == stream_of(emitted) + rest);
                        self.paragraph_starting = tokens.paragraph_starting;
                        if let Some(queued) = tokens.queued {
                            self.queued_stack.push(queued);
                        }
                        assert(self.pending() =~= old(self).pending().drop_first());
                        assert(lines[0] != Some(Seq::<char>::empty()));
                        return Some(Ok(tokens.first));
                    }
                },
            }
        }
    }

    /// Every token that is left, or the fault that ends the decoding.
    pub fn collect(self) -> (r: Result<Vec<Md<'a>>, Error<'a>>)
        requires
            self.wf(),
        ensures
            match r {
                Ok(tokens) => self.pending() == stream_of(views(tokens@)) && forall|i: int|
                    0 <= i < tokens@.len() ==> (#[trigger] tokens@[i]).is_borrowed(),
                Err(e) => e == Error::Io(Fault::InvalidData) && exists|i: int|
                    0 <= i < self.pending().len() && self.pending()[i] is Err,
            },
    {
        let mut decoder = self;
        let mut tokens: Vec<Md<'a>> = Vec::new();
        assert(self.pending() =~= stream_of(views(tokens@)) + decoder.pending());
        loop
            invariant
                decoder.wf(),
                self.pending() == stream_of(views(tokens@)) + decoder.pending(),
                forall|i: int| 0 <= i < tokens@.len() ==> (#[trigger] tokens@[i]).is_borrowed(),
            decreases decoder.pending().len(),
        {
            let ghost before = decoder.pending();
            let ghost done = tokens@;
            match decoder.next() {
                None => {
                    assert(self.pending() =~= stream_of(views(tokens@)));
                    return Ok(tokens);
                },
                Some(Err(e)) => {
                    assert(self.pending()[done.len() as int] == before[0]);
                    return Err(e);
                },
                Some(Ok(token)) => {
                    tokens.push(token);
                    assert(self.pending() =~= stream_of(views(tokens@)) + decoder.pending());
                },
            }
        }
    }
}

} // verus!
