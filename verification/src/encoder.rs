//! Encoding markdown tokens as Markdown text

use vstd::prelude::*;
use vstd::string::StringExecFns;

use crate::md::{all_supported, open_block, views, Block, Md, MdView};

verus! {

/// The characters that open a block in Markdown: nothing for a paragraph; for
/// a heading as many `#` as its level, then a space.
pub open spec fn md_prefix(block: Block) -> Seq<char> {
    if block == Block::Paragraph {
        Seq::empty()
    } else {
        Seq::new(block.level(), |i: int| '#').push(' ')
    }
}

/// What the token at index `i` adds to the Markdown text. A block opener is
/// set off from what precedes it by an empty line; a text that follows a text
/// is joined to it by one space.
pub open spec fn md_piece(tokens: Seq<MdView>, i: int) -> Seq<char> {
    match tokens[i] {
        MdView::Text(text) => if i > 0 && tokens[i - 1] is Text {
            seq![' '] + text
        } else {
            text
        },
        token => match token.block() {
            Some(block) => if i > 0 {
                seq!['\n', '\n'] + md_prefix(block)
            } else {
                md_prefix(block)
            },
            None => Seq::empty(),
        },
    }
}

/// What the tokens at indices `from` up to `to` add to the Markdown text.
pub open spec fn md_span(tokens: Seq<MdView>, from: int, to: int) -> Seq<char>
    decreases to - from,
{
    if from >= to {
        Seq::empty()
    } else {
        md_span(tokens, from, to - 1) + md_piece(tokens, to - 1)
    }
}

/// The Markdown text of a token sequence: the pieces of its tokens in order,
/// and a newline at the end.
pub open spec fn md_text(tokens: Seq<MdView>) -> Seq<char> {
    md_span(tokens, 0, tokens.len() as int).push('\n')
}

impl Block {
    /// The characters that open this block in Markdown.
    pub fn md_prefix(self) -> (r: &'static str)
        ensures
            r@ == md_prefix(self),
    {
        proof {
            reveal_strlit("");
            reveal_strlit("# ");
            reveal_strlit("## ");
            reveal_strlit("### ");
            reveal_strlit("#### ");
            reveal_strlit("##### ");
            reveal_strlit("###### ");
        }
        let r = match self {
            Block::Paragraph => "",
            Block::Heading1 => "# ",
            Block::Heading2 => "## ",
            Block::Heading3 => "### ",
            Block::Heading4 => "#### ",
            Block::Heading5 => "##### ",
            Block::Heading6 => "###### ",
        };
        assert(r@ =~= md_prefix(self));
        r
    }
}

/// Markdown encoder
pub struct Encoder<'a> {
    tokens: Vec<Md<'a>>,
    next: usize,
    writer: String,
    open: Option<Block>,
    not_first: bool,
    last_text: bool,
}

impl<'a> Encoder<'a> {
    /// The tokens that the encoder was made with.
    pub closed spec fn tokens(&self) -> Seq<MdView> {
        views(self.tokens@)
    }

    /// How many of the tokens have been written.
    pub closed spec fn consumed(&self) -> nat {
        self.next as nat
    }

    /// The text written so far.
    pub closed spec fn written(&self) -> Seq<char> {
        self.writer@
    }

    /// The state agrees with the tokens written so far: which block is open,
    /// whether anything was written, and whether the last token was a text.
    pub closed spec fn wf(&self) -> bool {
        &&& self.next <= self.tokens@.len()
        &&& self.open == open_block(self.tokens(), self.next as int)
        &&& self.not_first == (self.next > 0)
        &&& self.last_text == (self.next > 0 && self.tokens()[self.next - 1] is Text)
    }

    /// Create markdown encoder that appends to `writer`.
    pub fn new(tokens: Vec<Md<'a>>, writer: String) -> (r: Self)
        ensures
            r.wf(),
            r.tokens() == views(tokens@),
            r.consumed() == 0,
            r.written() == writer@,
    {
        Encoder { tokens, next: 0, writer, open: None, not_first: false, last_text: false }
    }

    /// Write the tokens that are left as Markdown, and a newline after them.
    /// A new encoder writes the Markdown text of its tokens; an encoder that
    /// has written its tokens writes the newline alone.
    pub fn encode_md(&mut self)
        requires
            old(self).wf(),
            all_supported(old(self).tokens()),
        ensures
            final(self).wf(),
            final(self).tokens() == old(self).tokens(),
            final(self).consumed() == old(self).tokens().len(),
            old(self).consumed() == 0 ==> final(self).written() == old(self).written() + md_text(
                old(self).tokens(),
            ),
            final(self).written() == old(self).written() + md_span(
                old(self).tokens(),
                old(self).consumed() as int,
                old(self).tokens().len() as int,
            ).push('\n'),
    {
        let ghost tokens = self.tokens();
        let ghost start = self.next as int;
        let ghost before = self.writer@;
        assert(self.writer@ =~= before + md_span(tokens, start, start));
        while self.next < self.tokens.len()
            invariant
                self.wf(),
                self.tokens() == tokens,
                all_supported(tokens),
                start <= self.next,
                self.writer@ == before + md_span(tokens, start, self.next as int),
            decreases self.tokens@.len() - self.next,
        {
            let i = self.next;
            let ghost written = self.writer@;
            assert(tokens[i as int] == self.tokens@[i as int]@);
            assert(tokens[i as int].is_supported());
            match self.tokens[i].text() {
                Some(text) => {
                    if self.last_text {
                        self.writer.append(" ");
                    }
                    self.writer.append(text);
                    self.last_text = true;
                    proof {
                        reveal_strlit(" ");
                        assert(" "@ =~= seq![' ']);
                        assert(self.writer@ =~= written + md_piece(tokens, i as int));
                    }
                },
                None => {
                    let block = self.tokens[i].block();
                    if self.not_first {
                        self.writer.append("\n\n");
                    }
                    if let Some(block) = block {
                        self.writer.append(block.md_prefix());
                    }
                    self.open = block;
                    self.last_text = false;
                    proof {
                        reveal_strlit("\n\n");
                        assert("\n\n"@ =~= seq!['\n', '\n']);
                        assert(self.writer@ =~= written + md_piece(tokens, i as int));
                    }
                },
            }
            self.not_first = true;
            self.next = i + 1;
            assert(self.writer@ =~= before + md_span(tokens, start, self.next as int));
        }
        self.writer.append("\n");
        proof {
            reveal_strlit("\n");
            assert("\n"@ =~= seq!['\n']);
            assert(self.writer@ =~= before + md_span(tokens, start, tokens.len() as int).push(
                '\n',
            ));
        }
    }

    /// The text written so far.
    pub fn writer(&self) -> (r: &str)
        ensures
            r@ == self.written(),
    {
        self.writer.as_str()
    }

    /// Give up the encoder for the text it has written.
    pub fn into_writer(self) -> (r: String)
        ensures
            r@ == self.written(),
    {
        self.writer
    }
}

} // verus!
