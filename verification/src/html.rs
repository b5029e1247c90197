//! HTML encoding of markdown

use vstd::prelude::*;
use vstd::string::StringExecFns;

use crate::md::{all_supported, open_block, views, Block, Md, MdView};

verus! {

/// The name of the HTML element that holds a block.
pub open spec fn tag_name(block: Block) -> Seq<char> {
    match block {
        Block::Paragraph => seq!['p'],
        Block::Heading1 => seq!['h', '1'],
        Block::Heading2 => seq!['h', '2'],
        Block::Heading3 => seq!['h', '3'],
        Block::Heading4 => seq!['h', '4'],
        Block::Heading5 => seq!['h', '5'],
        Block::Heading6 => seq!['h', '6'],
    }
}

/// The tag that opens the element of a block.
pub open spec fn open_tag(block: Block) -> Seq<char> {
    seq!['<'] + tag_name(block) + seq!['>']
}

/// The tag that closes the element of a block.
pub open spec fn close_tag(block: Block) -> Seq<char> {
    seq!['<', '/'] + tag_name(block) + seq!['>']
}

/// What closes the open block: its closing tag, or nothing where none is
/// open.
pub open spec fn closing(open: Option<Block>) -> Seq<char> {
    match open {
        Some(block) => close_tag(block),
        None => Seq::empty(),
    }
}

/// `s` with `to` in the place of every occurrence of `from`.
pub open spec fn replaced(s: Seq<char>, from: char, to: Seq<char>) -> Seq<char>
    decreases s.len(),
{
    if s.len() == 0 {
        Seq::empty()
    } else if s[0] == from {
        to + replaced(s.drop_first(), from, to)
    } else {
        seq![s[0]] + replaced(s.drop_first(), from, to)
    }
}

/// Text as it stands in HTML: `&`, `<` and `>` give way to the entities
/// `&amp;`, `&lt;` and `&gt;`.
pub open spec fn escaped(text: Seq<char>) -> Seq<char> {
    replaced(
        replaced(replaced(text, '&', seq!['&', 'a', 'm', 'p', ';']), '<', seq!['&', 'l', 't', ';']),
        '>',
        seq!['&', 'g', 't', ';'],
    )
}

/// What the token at index `i` adds to the HTML text. A block opener closes
/// the block that is open and opens its own element; a text that follows a
/// text is joined to it by one space.
pub open spec fn html_piece(tokens: Seq<MdView>, i: int) -> Seq<char> {
    match tokens[i] {
        MdView::Text(text) => if i > 0 && tokens[i - 1] is Text {
            seq![' '] + escaped(text)
        } else {
            escaped(text)
        },
        token => match token.block() {
            Some(block) => closing(open_block(tokens, i)) + open_tag(block),
            None => Seq::empty(),
        },
    }
}

/// What the tokens at indices `from` up to `to` add to the HTML text.
pub open spec fn html_span(tokens: Seq<MdView>, from: int, to: int) -> Seq<char>
    decreases to - from,
{
    if from >= to {
        Seq::empty()
    } else {
        html_span(tokens, from, to - 1) + html_piece(tokens, to - 1)
    }
}

/// The HTML text of a token sequence: the pieces of its tokens in order, and
/// the closing tag of the block that is open at the end.
pub open spec fn html_text(tokens: Seq<MdView>) -> Seq<char> {
    html_span(tokens, 0, tokens.len() as int) + closing(open_block(tokens, tokens.len() as int))
}

/// `str::replace` with a character as the pattern: a new string in which `to`
/// stands in the place of every occurrence of `from`.
#[verifier::external_body]
fn replace(s: &str, from: char, to: &str) -> (r: String)
    ensures
        r@ == replaced(s@, from, to@),
{
    s.replace(from, to)
}

/// Text as it stands in HTML.
pub fn escape(text: &str) -> (r: String)
    ensures
        r@ == escaped(text@),
{
    proof {
        reveal_strlit("&amp;");
        reveal_strlit("&lt;");
        reveal_strlit("&gt;");
        assert("&amp;"@ =~= seq!['&', 'a', 'm', 'p', ';']);
        assert("&lt;"@ =~= seq!['&', 'l', 't', ';']);
        assert("&gt;"@ =~= seq!['&', 'g', 't', ';']);
    }
    let amp = replace(text, '&', "&amp;");
    let lt = replace(amp.as_str(), '<', "&lt;");
    replace(lt.as_str(), '>', "&gt;")
}

impl Block {
    /// The tag that opens the element of this block.
    pub fn open_tag(self) -> (r: &'static str)
        ensures
            r@ == open_tag(self),
    {
        proof {
            reveal_strlit("<p>");
            reveal_strlit("<h1>");
            reveal_strlit("<h2>");
            reveal_strlit("<h3>");
            reveal_strlit("<h4>");
            reveal_strlit("<h5>");
            reveal_strlit("<h6>");
        }
        let r = match self {
            Block::Paragraph => "<p>",
            Block::Heading1 => "<h1>",
            Block::Heading2 => "<h2>",
            Block::Heading3 => "<h3>",
            Block::Heading4 => "<h4>",
            Block::Heading5 => "<h5>",
            Block::Heading6 => "<h6>",
        };
        assert(r@ =~= open_tag(self));
        r
    }

    /// The tag that closes the element of this block.
    pub fn close_tag(self) -> (r: &'static str)
        ensures
            r@ == close_tag(self),
    {
        proof {
            reveal_strlit("</p>");
            reveal_strlit("</h1>");
            reveal_strlit("</h2>");
            reveal_strlit("</h3>");
            reveal_strlit("</h4>");
            reveal_strlit("</h5>");
            reveal_strlit("</h6>");
        }
        let r = match self {
            Block::Paragraph => "</p>",
            Block::Heading1 => "</h1>",
            Block::Heading2 => "</h2>",
            Block::Heading3 => "</h3>",
            Block::Heading4 => "</h4>",
            Block::Heading5 => "</h5>",
            Block::Heading6 => "</h6>",
        };
        assert(r@ =~= close_tag(self));
        r
    }
}

/// A markdown to HTML encoder
pub struct HtmlEncoder<'a> {
    tokens: Vec<Md<'a>>,
    next: usize,
    writer: String,
    open: Option<Block>,
    last_text: bool,
}

impl<'a> HtmlEncoder<'a> {
    /// The tokens that the encoder was made with.
    pub closed spec fn tokens(&self) -> Seq<MdView> {
        views(self.tokens@)
    }

    /// How many of the tokens have been written.
    pub closed spec fn consumed(&self) -> nat {
        self.next as nat
    }

    /// The text written so far.
    pub closed spec fn written(&self) -> Seq<char> {
        self.writer@
    }

    /// No element is open between two calls, and the tokens are either all
    /// still to be written or all written.
    pub closed spec fn wf(&self) -> bool {
        &&& self.next == 0 || self.next == self.tokens@.len()
        &&& self.open is None
        &&& self.last_text == (self.next > 0 && self.tokens()[self.next - 1] is Text)
    }

    /// Create a new HTML encoder that appends to `writer`.
    pub fn new(tokens: Vec<Md<'a>>, writer: String) -> (r: Self)
        ensures
            r.wf(),
            r.tokens() == views(tokens@),
            r.consumed() == 0,
            r.written() == writer@,
    {
        HtmlEncoder { tokens, next: 0, writer, open: None, last_text: false }
    }

    /// Close the element that is open, if one is.
    fn close(&mut self)
        ensures
            final(self).writer@ == old(self).writer@ + closing(old(self).open),
            final(self).open is None,
            final(self).tokens == old(self).tokens,
            final(self).next == old(self).next,
            final(self).last_text == old(self).last_text,
    {
        if let Some(block) = self.open {
            self.open = None;
            self.writer.append(block.close_tag());
        }
        assert(self.writer@ =~= old(self).writer@ + closing(old(self).open));
    }

    /// Write the tokens as HTML, and close the element that is open at the
    /// end. An encoder that has written its tokens writes nothing more.
    pub fn encode_html(&mut self)
        requires
            old(self).wf(),
            all_supported(old(self).tokens()),
        ensures
            final(self).wf(),
            final(self).tokens() == old(self).tokens(),
            final(self).consumed() == old(self).tokens().len(),
            final(self).written() == old(self).written() + (if old(self).consumed() == 0 {
                html_text(old(self).tokens())
            } else {
                Seq::empty()
            }),
    {
        let ghost tokens = self.tokens();
        let ghost start = self.next as int;
        let ghost before = self.writer@;
        assert(self.writer@ =~= before + html_span(tokens, start, start));
        while self.next < self.tokens.len()
            invariant
                self.tokens() == tokens,
                all_supported(tokens),
                start <= self.next <= tokens.len(),
                start == 0 || start == tokens.len(),
                self.next > start ==> self.open == open_block(tokens, self.next as int),
                self.next == start ==> self.open is None,
                self.last_text == (self.next > 0 && tokens[self.next - 1] is Text),
                self.writer@ == before + html_span(tokens, start, self.next as int),
            decreases self.tokens@.len() - self.next,
        {
            let i = self.next;
            let ghost written = self.writer@;
            assert(tokens[i as int] == self.tokens@[i as int]@);
            assert(tokens[i as int].is_supported());
            assert(self.open == open_block(tokens, i as int));
            match self.tokens[i].text() {
                Some(text) => {
                    if self.last_text {
                        self.writer.append(" ");
                    }
                    let text = escape(text);
                    self.writer.append(text.as_str());
                    self.last_text = true;
                    proof {
                        reveal_strlit(" ");
                        assert(" "@ =~= seq![' ']);
                        assert(self.writer@ =~= written + html_piece(tokens, i as int));
                    }
                },
                None => {
                    let block = self.tokens[i].block();
                    self.close();
                    if let Some(block) = block {
                        self.writer.append(block.open_tag());
                    }
                    self.open = block;
                    self.last_text = false;
                    assert(self.writer@ =~= written + html_piece(tokens, i as int));
                },
            }
            self.next = i + 1;
            assert(self.writer@ =~= before + html_span(tokens, start, self.next as int));
        }
        self.close();
        proof {
            if start == 0 {
                assert(self.writer@ =~= before + html_text(tokens));
            } else {
                assert(self.writer@ =~= before);
            }
        }
    }

    /// The text written so far.
    pub fn writer(&self) -> (r: &str)
        ensures
            r@ == self.written(),
    {
        self.writer.as_str()
    }

    /// Give up the encoder for the text it has written.
    pub fn into_writer(self) -> (r: String)
        ensures
            r@ == self.written(),
    {
        self.writer
    }
}

} // verus!
