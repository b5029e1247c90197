use std::borrow::{Cow, ToOwned};
use vstd::prelude::*;

verus! {

/// `Cow::clone` hands back a value that stands for the same data: a borrow is
/// copied as a borrow, owned data is duplicated. Nothing is claimed of the
/// result here; the token's derived `Clone` is the only caller.
pub assume_specification<'a, B: ?Sized + ToOwned>[ <Cow<'a, B> as Clone>::clone ](
    c: &Cow<'a, B>,
) -> (res: Cow<'a, B>)
;

/// Types of elements in a markdown file.
///
/// First documented is preferred
#[non_exhaustive]
#[derive(Clone, Eq, PartialEq, Debug)]
pub enum Md<'a> {
    /// Line ends in `  `, or `<br>` or `\\`
    LineBreak,
    /// Line exclusively `---` or more `-`, `___` or more `_`, `***` or more
    /// `*`
    HorizontalRule,
    /// Separated by two newlines
    Paragraph,
    /// Start with `#` or underlined with any number of `=`
    Heading1,
    /// Start with `##` or underlined with any number of `-`
    Heading2,
    /// Start with `###`
    Heading3,
    /// Start with `####`
    Heading4,
    /// Start with `#####`
    Heading5,
    /// Start with `######`
    Heading6,
    /// Start with `>`, open a quote block
    QuoteOpen,
    /// Same as above, close a quote block
    QuoteClose,
    /// Open an ordered list, with any of `1234567890`, followed by `. `
    OrderedList,
    /// Open an unordered list, with any of `-+*`, followed by ` `
    UnorderedList,
    /// Definition list (followed by term as `Text`, then `ListItem` which is
    /// any following line starting with `: `)
    DefinitionList,
    /// List item, continues item as long as indented 4 spaces or tab
    ListItem,
    /// In an unordered list, `[x] ` or `[ ] `
    ListTask(bool),
    /// Close a list
    ListClose,
    /// When image is not followed by a new paragraph
    Caption,
    /// Italic style text, `*` or `_`
    Italic(bool),
    /// Bold style text, `**` or `__`
    Bold(bool),
    /// Bold and italic style text, `***` or `___`
    BoldItalic(bool),
    /// Superscript style text `^`
    Superscript(bool),
    /// Subscript style text  `~`
    Subscript(bool),
    /// Strikethrough style text `~~`
    Strikethrough(bool),
    /// Highlight style text `==`
    Highlight(bool),
    /// Underline `--`, `<ins></ins>`, `<u></u>`
    Underline(bool),
    /// Same line warning text:
    ///
    /// ```md
    /// > [!WARNING]
    /// > My warning text
    /// >
    /// > Some more information about the warning
    /// ```
    ///
    /// ```md
    /// > [!WARNING]
    /// > My warning text
    /// ```
    ///
    /// Separate line more information:
    ///
    /// ```md
    /// > [!WARNING]
    /// >
    /// > Some more information about the warning
    /// ```
    ///
    /// Can also use double space:
    ///
    /// ```md
    /// > [!WARNING]
    /// > Some more information about the warning
    /// ```
    ///
    /// This also works (but not recommended)
    ///
    /// ```md
    /// > [!WARNING]
    /// My warning text
    ///
    /// > [!WARNING]
    /// Some more information about the warning
    /// ```
    ///
    /// Alternative syntax:
    ///
    /// ```md
    /// !!! warning "My warning text"
    ///
    ///     Some more information about the warning
    /// ```
    ///
    /// Can be
    ///
    ///  - `NOTE`
    ///  - `TIP`
    ///  - `WARNING`
    ///  - `CAUTION`
    ///  - `IMPORTANT`
    ///
    /// Or with `!!!` syntax
    ///
    ///  - `note`
    ///  - `astract`
    ///  - `info`
    ///  - `tip`
    ///  - `success`
    ///  - `question`
    ///  - `warning`
    ///  - `failure`
    ///  - `danger`
    ///  - `bug`
    ///  - `example`
    ///  - `quote`
    Admonition(Cow<'a, str>),
    /// Unexpanded:
    ///
    /// ```md
    /// ++  My summary
    ///     Continued summary
    ///
    ///     Details that can be expanded
    /// ```
    ///
    /// Expanded:
    ///
    /// ```md
    /// +++ My summary
    ///     Continued summary
    ///
    ///     Details that can be collapsed
    /// ```
    ///
    /// `<details><summary>My summary</summary></details>`
    ///
    /// Alternative syntax unexpanded:
    ///
    /// ```md
    /// ??? info "My summary"
    ///
    ///     Details that can be expanded
    /// ```
    ///
    /// Alternative syntax expanded:
    ///
    /// ```md
    /// ???+ info "My summary"
    ///
    ///     Details that can be collapsed
    /// ```
    Details(Cow<'a, str>, bool),
    /// `[Some comment text]: #`
    Comment(Cow<'a, str>),
    /// Open and close with one to two backticks
    Code(Cow<'a, str>),
    /// Open and close with tripple+ backtick or `~`, or 4 spaces
    Codeblock(Cow<'a, str>),
    /// Select syntax highlighting for following codeblock
    SyntaxHighlighting(Cow<'a, str>),
    /// Plain text after any of the above markers
    Text(Cow<'a, str>),
    /// Image alt text, referenced by number
    ImageNum(Cow<'a, str>, u16),
    /// Image alt text, file referenced by alt text
    ImageRef(Cow<'a, str>),
    /// Link text `<https://example.org>` or `https://example.org`
    Link(Cow<'a, str>),
    /// Link text with number `[My link][1]`
    LinkNum(Cow<'a, str>, u16),
    /// Link reference `[My link]`
    LinkRef(Cow<'a, str>),
    /// Link definition key `[My link]: https://example.org` or
    /// `[1]: https://example.org`
    ///
    /// Also; `[My link]: <https://example.org>` or
    /// `[1]: <https://example.org>`
    LinkKey(Cow<'a, str>),
    /// Link definition value (same as above), `(https://example.org)` when
    /// directly following a `LinkRef` or `ImageRef`
    LinkVal(Cow<'a, str>),
    /// `[This is a link with a title](https://example.org "My Title")`,
    /// `[This is a link with a title](https://example.org 'My Title')`,
    /// `[This is a link with a title](https://example.org (My Title))`
    ///
    /// `[My link]: <https://example.org> "My Title"`,
    /// `[1]: <https://example.org> "My Title"`,
    /// `[My link]: <https://example.org> 'My Title'`,
    /// `[1]: <https://example.org> 'My Title'`,
    /// `[My link]: <https://example.org> (My Title)`,
    /// `[1]: <https://example.org> (My Title)`
    Title(Cow<'a, str>),
    /// `Something[^reftext]`
    FootnoteRef(Cow<'a, str>),
    /// `[^reftext]: First paragraph in footnote`
    FootnoteOpen(Cow<'a, str>),
    /// No longer indented, footnote has ended
    FootnoteClose,
    /// Custom ID for heading `# Heading {#custom-id}`
    HeadingId(Cow<'a, str>),
    /// Start table column `|` or start table align left `:---`
    TableLeft,
    /// Start table column `|` or start table align center `:---:`
    TableCentered,
    /// Start table column `|` or start table align right `---:`
    TableRight,
    /// Next cell in row, `|` or next column if end of row
    TableCell,
}

/// The mathematical value of a token: the same construct, with every text
/// payload as a sequence of characters, whether it was borrowed or owned.
pub ghost enum MdView {
    LineBreak,
    HorizontalRule,
    Paragraph,
    Heading1,
    Heading2,
    Heading3,
    Heading4,
    Heading5,
    Heading6,
    QuoteOpen,
    QuoteClose,
    OrderedList,
    UnorderedList,
    DefinitionList,
    ListItem,
    ListTask(bool),
    ListClose,
    Caption,
    Italic(bool),
    Bold(bool),
    BoldItalic(bool),
    Superscript(bool),
    Subscript(bool),
    Strikethrough(bool),
    Highlight(bool),
    Underline(bool),
    Admonition(Seq<char>),
    Details(Seq<char>, bool),
    Comment(Seq<char>),
    Code(Seq<char>),
    Codeblock(Seq<char>),
    SyntaxHighlighting(Seq<char>),
    Text(Seq<char>),
    ImageNum(Seq<char>, u16),
    ImageRef(Seq<char>),
    Link(Seq<char>),
    LinkNum(Seq<char>, u16),
    LinkRef(Seq<char>),
    LinkKey(Seq<char>),
    LinkVal(Seq<char>),
    Title(Seq<char>),
    FootnoteRef(Seq<char>),
    FootnoteOpen(Seq<char>),
    FootnoteClose,
    HeadingId(Seq<char>),
    TableLeft,
    TableCentered,
    TableRight,
    TableCell,
}

impl<'a> View for Md<'a> {
    type V = MdView;

    open spec fn view(&self) -> MdView {
        match *self {
            Md::LineBreak => MdView::LineBreak,
            Md::HorizontalRule => MdView::HorizontalRule,
            Md::Paragraph => MdView::Paragraph,
            Md::Heading1 => MdView::Heading1,
            Md::Heading2 => MdView::Heading2,
            Md::Heading3 => MdView::Heading3,
            Md::Heading4 => MdView::Heading4,
            Md::Heading5 => MdView::Heading5,
            Md::Heading6 => MdView::Heading6,
            Md::QuoteOpen => MdView::QuoteOpen,
            Md::QuoteClose => MdView::QuoteClose,
            Md::OrderedList => MdView::OrderedList,
            Md::UnorderedList => MdView::UnorderedList,
            Md::DefinitionList => MdView::DefinitionList,
            Md::ListItem => MdView::ListItem,
            Md::ListTask(b) => MdView::ListTask(b),
            Md::ListClose => MdView::ListClose,
            Md::Caption => MdView::Caption,
            Md::Italic(b) => MdView::Italic(b),
            Md::Bold(b) => MdView::Bold(b),
            Md::BoldItalic(b) => MdView::BoldItalic(b),
            Md::Superscript(b) => MdView::Superscript(b),
            Md::Subscript(b) => MdView::Subscript(b),
            Md::Strikethrough(b) => MdView::Strikethrough(b),
            Md::Highlight(b) => MdView::Highlight(b),
            Md::Underline(b) => MdView::Underline(b),
            Md::Admonition(t) => MdView::Admonition(t@),
            Md::Details(t, b) => MdView::Details(t@, b),
            Md::Comment(t) => MdView::Comment(t@),
            Md::Code(t) => MdView::Code(t@),
            Md::Codeblock(t) => MdView::Codeblock(t@),
            Md::SyntaxHighlighting(t) => MdView::SyntaxHighlighting(t@),
            Md::Text(t) => MdView::Text(t@),
            Md::ImageNum(t, n) => MdView::ImageNum(t@, n),
            Md::ImageRef(t) => MdView::ImageRef(t@),
            Md::Link(t) => MdView::Link(t@),
            Md::LinkNum(t, n) => MdView::LinkNum(t@, n),
            Md::LinkRef(t) => MdView::LinkRef(t@),
            Md::LinkKey(t) => MdView::LinkKey(t@),
            Md::LinkVal(t) => MdView::LinkVal(t@),
            Md::Title(t) => MdView::Title(t@),
            Md::FootnoteRef(t) => MdView::FootnoteRef(t@),
            Md::FootnoteOpen(t) => MdView::FootnoteOpen(t@),
            Md::FootnoteClose => MdView::FootnoteClose,
            Md::HeadingId(t) => MdView::HeadingId(t@),
            Md::TableLeft => MdView::TableLeft,
            Md::TableCentered => MdView::TableCentered,
            Md::TableRight => MdView::TableRight,
            Md::TableCell => MdView::TableCell,
        }
    }
}

/// The block-level constructs that the encoders keep open: a paragraph, or a
/// heading of one of six levels.
#[derive(Clone, Copy, Debug, PartialEq, Eq, Structural)]
pub enum Block {
    /// A paragraph
    Paragraph,
    /// A heading of level 1
    Heading1,
    /// A heading of level 2
    Heading2,
    /// A heading of level 3
    Heading3,
    /// A heading of level 4
    Heading4,
    /// A heading of level 5
    Heading5,
    /// A heading of level 6
    Heading6,
}

impl Block {
    /// The heading level, and 0 for a paragraph.
    pub open spec fn level(self) -> nat {
        match self {
            Block::Paragraph => 0,
            Block::Heading1 => 1,
            Block::Heading2 => 2,
            Block::Heading3 => 3,
            Block::Heading4 => 4,
            Block::Heading5 => 5,
            Block::Heading6 => 6,
        }
    }
}

impl MdView {
    /// The block that this token opens, if it opens one.
    pub open spec fn block(self) -> Option<Block> {
        match self {
            MdView::Paragraph => Some(Block::Paragraph),
            MdView::Heading1 => Some(Block::Heading1),
            MdView::Heading2 => Some(Block::Heading2),
            MdView::Heading3 => Some(Block::Heading3),
            MdView::Heading4 => Some(Block::Heading4),
            MdView::Heading5 => Some(Block::Heading5),
            MdView::Heading6 => Some(Block::Heading6),
            _ => None,
        }
    }

    /// Whether the encoders can write this token: it opens a block or is
    /// plain text.
    pub open spec fn is_supported(self) -> bool {
        self.block() is Some || self is Text
    }
}

/// The values of a sequence of tokens.
pub open spec fn views<'a>(tokens: Seq<Md<'a>>) -> Seq<MdView> {
    tokens.map_values(|m: Md<'a>| m@)
}

/// Whether the encoders can write every token of the sequence.
pub open spec fn all_supported(tokens: Seq<MdView>) -> bool {
    forall|i: int| 0 <= i < tokens.len() ==> (#[trigger] tokens[i]).is_supported()
}

/// The block that is open after the first `n` tokens: the one that the last
/// opener among them opened.
pub open spec fn open_block(tokens: Seq<MdView>, n: int) -> Option<Block>
    decreases n,
{
    if n <= 0 || n > tokens.len() {
        None
    } else if tokens[n - 1].block() is Some {
        tokens[n - 1].block()
    } else {
        open_block(tokens, n - 1)
    }
}

impl<'a> Md<'a> {
    /// Whether the token copies nothing: the text it holds, if it holds one,
    /// is a borrow.
    pub open spec fn is_borrowed(&self) -> bool {
        match *self {
            Md::Admonition(t) => t is Borrowed,
            Md::Comment(t) => t is Borrowed,
            Md::Code(t) => t is Borrowed,
            Md::Codeblock(t) => t is Borrowed,
            Md::SyntaxHighlighting(t) => t is Borrowed,
            Md::Text(t) => t is Borrowed,
            Md::ImageRef(t) => t is Borrowed,
            Md::Link(t) => t is Borrowed,
            Md::LinkRef(t) => t is Borrowed,
            Md::LinkKey(t) => t is Borrowed,
            Md::LinkVal(t) => t is Borrowed,
            Md::Title(t) => t is Borrowed,
            Md::FootnoteRef(t) => t is Borrowed,
            Md::FootnoteOpen(t) => t is Borrowed,
            Md::HeadingId(t) => t is Borrowed,
            Md::Details(t, _) => t is Borrowed,
            Md::ImageNum(t, _) => t is Borrowed,
            Md::LinkNum(t, _) => t is Borrowed,
            _ => true,
        }
    }

    /// Whether the token borrows nothing: the text it holds, if it holds
    /// one, is its own.
    pub open spec fn is_owned(&self) -> bool {
        match *self {
            Md::Admonition(t) => t is Owned,
            Md::Comment(t) => t is Owned,
            Md::Code(t) => t is Owned,
            Md::Codeblock(t) => t is Owned,
            Md::SyntaxHighlighting(t) => t is Owned,
            Md::Text(t) => t is Owned,
            Md::ImageRef(t) => t is Owned,
            Md::Link(t) => t is Owned,
            Md::LinkRef(t) => t is Owned,
            Md::LinkKey(t) => t is Owned,
            Md::LinkVal(t) => t is Owned,
            Md::Title(t) => t is Owned,
            Md::FootnoteRef(t) => t is Owned,
            Md::FootnoteOpen(t) => t is Owned,
            Md::HeadingId(t) => t is Owned,
            Md::Details(t, _) => t is Owned,
            Md::ImageNum(t, _) => t is Owned,
            Md::LinkNum(t, _) => t is Owned,
            _ => true,
        }
    }

    /// The block that this token opens, if it opens one.
    pub fn block(&self) -> (r: Option<Block>)
        ensures
            r == self@.block(),
    {
        match self {
            Md::Paragraph => Some(Block::Paragraph),
            Md::Heading1 => Some(Block::Heading1),
            Md::Heading2 => Some(Block::Heading2),
            Md::Heading3 => Some(Block::Heading3),
            Md::Heading4 => Some(Block::Heading4),
            Md::Heading5 => Some(Block::Heading5),
            Md::Heading6 => Some(Block::Heading6),
            _ => None,
        }
    }

    /// The text of a `Text` token.
    pub fn text(&self) -> (r: Option<&str>)
        ensures
            match r {
                Some(s) => self@ == MdView::Text(s@),
                None => !(self@ is Text),
            },
    {
        match self {
            Md::Text(text) => Some(
                match text {
                    Cow::Borrowed(s) => s,
                    Cow::Owned(s) => s.as_str(),
                },
            ),
            _ => None,
        }
    }

    /// Whether the encoders can write this token.
    pub fn is_supported(&self) -> (r: bool)
        ensures
            r == self@.is_supported(),
    {
        self.block().is_some() || self.text().is_some()
    }
}

/// Whether the encoders can write every token of `tokens`.
pub fn supported(tokens: &[Md<'_>]) -> (r: bool)
    ensures
        r == all_supported(views(tokens@)),
{
    let mut i: usize = 0;
    while i < tokens.len()
        invariant
            i <= tokens@.len(),
            forall|j: int| 0 <= j < i ==> (#[trigger] views(tokens@)[j]).is_supported(),
        decreases tokens@.len() - i,
    {
        if !tokens[i].is_supported() {
            assert(!views(tokens@)[i as int].is_supported());
            return false;
        }
        i += 1;
    }
    true
}

} // verus!
