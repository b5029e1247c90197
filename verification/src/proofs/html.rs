//! Every element that the HTML encoder opens is closed again

use vstd::prelude::*;

use crate::html::{
    close_tag, closing, escaped, html_piece, html_span, html_text, open_tag, replaced, tag_name,
};
use crate::md::{open_block, Block, MdView};

verus! {

/// One thing that the HTML encoder writes: a tag that opens an element, a
/// tag that closes one, or characters of text.
pub ghost enum HtmlPart {
    /// The opening tag of a block's element
    Open(Block),
    /// The closing tag of a block's element
    Close(Block),
    /// Text between tags
    Chars(Seq<char>),
}

/// The characters of one part.
pub open spec fn render_part(part: HtmlPart) -> Seq<char> {
    match part {
        HtmlPart::Open(block) => open_tag(block),
        HtmlPart::Close(block) => close_tag(block),
        HtmlPart::Chars(text) => text,
    }
}

/// The characters of a sequence of parts.
pub open spec fn render(parts: Seq<HtmlPart>) -> Seq<char>
    decreases parts.len(),
{
    if parts.len() == 0 {
        Seq::empty()
    } else {
        render(parts.drop_last()) + render_part(parts.last())
    }
}

/// The part that closes the open block, if one is open.
pub open spec fn closing_parts(open: Option<Block>) -> Seq<HtmlPart> {
    match open {
        Some(block) => seq![HtmlPart::Close(block)],
        None => Seq::empty(),
    }
}

/// The parts that the token at index `i` is written as.
pub open spec fn token_parts(tokens: Seq<MdView>, i: int) -> Seq<HtmlPart> {
    match tokens[i] {
        MdView::Text(text) => if i > 0 && tokens[i - 1] is Text {
            seq![HtmlPart::Chars(seq![' '] + escaped(text))]
        } else {
            seq![HtmlPart::Chars(escaped(text))]
        },
        token => match token.block() {
            Some(block) => closing_parts(open_block(tokens, i)) + seq![HtmlPart::Open(block)],
            None => Seq::empty(),
        },
    }
}

/// The parts that the first `n` tokens are written as.
pub open spec fn span_parts(tokens: Seq<MdView>, n: int) -> Seq<HtmlPart>
    decreases n,
{
    if n <= 0 {
        Seq::empty()
    } else {
        span_parts(tokens, n - 1) + token_parts(tokens, n - 1)
    }
}

/// The parts that a token sequence is written as, the closing tag at the end
/// among them.
pub open spec fn html_parts(tokens: Seq<MdView>) -> Seq<HtmlPart> {
    span_parts(tokens, tokens.len() as int) + closing_parts(
        open_block(tokens, tokens.len() as int),
    )
}

/// How often `part` occurs in `parts`.
pub open spec fn count(parts: Seq<HtmlPart>, part: HtmlPart) -> nat
    decreases parts.len(),
{
    if parts.len() == 0 {
        0
    } else {
        count(parts.drop_last(), part) + if parts.last() == part {
            1nat
        } else {
            0nat
        }
    }
}

/// At no point have more elements of `block` been closed than were opened:
/// every closing tag has its opening tag before it.
pub open spec fn never_ahead(parts: Seq<HtmlPart>, block: Block) -> bool {
    forall|k: int|
        0 <= k <= parts.len() ==> count(#[trigger] parts.take(k), HtmlPart::Close(block)) <= count(
            parts.take(k),
            HtmlPart::Open(block),
        )
}

/// The characters of two runs of parts are the characters of the first, then
/// those of the second.
pub proof fn lemma_render_concat(a: Seq<HtmlPart>, b: Seq<HtmlPart>)
    ensures
        render(a + b) == render(a) + render(b),
    decreases b.len(),
{
    if b.len() == 0 {
        assert(a + b =~= a);
        assert(render(a) + render(b) =~= render(a));
    } else {
        assert((a + b).drop_last() =~= a + b.drop_last());
        assert((a + b).last() == b.last());
        lemma_render_concat(a, b.drop_last());
        assert(render(a + b) =~= render(a) + render(b));
    }
}

/// Occurrences in two runs of parts add up.
pub proof fn lemma_count_concat(a: Seq<HtmlPart>, b: Seq<HtmlPart>, part: HtmlPart)
    ensures
        count(a + b, part) == count(a, part) + count(b, part),
    decreases b.len(),
{
    if b.len() == 0 {
        assert(a + b =~= a);
    } else {
        assert((a + b).drop_last() =~= a + b.drop_last());
        assert((a + b).last() == b.last());
        lemma_count_concat(a, b.drop_last(), part);
    }
}

/// Occurrences in a run of one part.
proof fn lemma_count_one(x: HtmlPart, part: HtmlPart)
    ensures
        count(seq![x], part) == if x == part {
            1nat
        } else {
            0nat
        },
{
    let s = seq![x];
    assert(s.drop_last() =~= Seq::<HtmlPart>::empty());
    assert(count(s.drop_last(), part) == 0);
}

/// Occurrences in a run of two parts.
proof fn lemma_count_two(x: HtmlPart, y: HtmlPart, part: HtmlPart)
    ensures
        count(seq![x, y], part) == count(seq![x], part) + count(seq![y], part),
{
    assert(seq![x, y] =~= seq![x] + seq![y]);
    lemma_count_concat(seq![x], seq![y], part);
}

/// The characters of the parts of one token are its piece of the HTML text.
proof fn lemma_render_token(tokens: Seq<MdView>, i: int)
    requires
        0 <= i < tokens.len(),
    ensures
        render(token_parts(tokens, i)) == html_piece(tokens, i),
{
    let parts = token_parts(tokens, i);
    let empty = Seq::<HtmlPart>::empty();
    assert(render(empty) =~= Seq::<char>::empty());
    if parts.len() == 1 {
        assert(parts.drop_last() =~= empty);
        assert(render(parts) =~= render_part(parts[0]));
        assert(render(parts) =~= html_piece(tokens, i));
    } else if parts.len() == 2 {
        let one = parts.drop_last();
        assert(one.drop_last() =~= empty);
        assert(render(one) =~= render_part(parts[0]));
        assert(render(parts) =~= render_part(parts[0]) + render_part(parts[1]));
        assert(render(parts) =~= html_piece(tokens, i));
    } else {
        assert(parts =~= empty);
        assert(render(parts) =~= html_piece(tokens, i));
    }
}

/// The characters of the parts of the first `n` tokens are their span of the
/// HTML text.
proof fn lemma_render_span(tokens: Seq<MdView>, n: int)
    requires
        0 <= n <= tokens.len(),
    ensures
        render(span_parts(tokens, n)) == html_span(tokens, 0, n),
    decreases n,
{
    if n > 0 {
        lemma_render_span(tokens, n - 1);
        lemma_render_token(tokens, n - 1);
        lemma_render_concat(span_parts(tokens, n - 1), token_parts(tokens, n - 1));
    }
}

/// Appending parts keeps closing tags behind opening tags where it does so
/// at each step of the appended run.
proof fn lemma_never_ahead_concat(a: Seq<HtmlPart>, b: Seq<HtmlPart>, block: Block)
    requires
        never_ahead(a, block),
        forall|j: int|
            0 <= j <= b.len() ==> count(a, HtmlPart::Close(block)) + count(
                #[trigger] b.take(j),
                HtmlPart::Close(block),
            ) <= count(a, HtmlPart::Open(block)) + count(b.take(j), HtmlPart::Open(block)),
    ensures
        never_ahead(a + b, block),
{
    let all = a + b;
    assert forall|k: int| 0 <= k <= all.len() implies count(
        #[trigger] all.take(k),
        HtmlPart::Close(block),
    ) <= count(all.take(k), HtmlPart::Open(block)) by {
        if k <= a.len() {
            assert(all.take(k) =~= a.take(k));
        } else {
            let j = k - a.len();
            assert(all.take(k) =~= a + b.take(j));
            lemma_count_concat(a, b.take(j), HtmlPart::Close(block));
            lemma_count_concat(a, b.take(j), HtmlPart::Open(block));
        }
    }
}

/// After the first `n` tokens, as many elements of `block` were opened as
/// were closed, and one more where `block` is the open block; and no closing
/// tag came before its opening tag.
proof fn lemma_span_counts(tokens: Seq<MdView>, n: int, block: Block)
    requires
        0 <= n <= tokens.len(),
    ensures
        count(span_parts(tokens, n), HtmlPart::Open(block)) == count(
            span_parts(tokens, n),
            HtmlPart::Close(block),
        ) + if open_block(tokens, n) == Some(block) {
            1nat
        } else {
            0nat
        },
        never_ahead(span_parts(tokens, n), block),
    decreases n,
{
    let open = HtmlPart::Open(block);
    let close = HtmlPart::Close(block);
    let empty = Seq::<HtmlPart>::empty();
    if n == 0 {
        assert forall|k: int| 0 <= k <= empty.len() implies count(#[trigger] empty.take(k), close)
            <= count(empty.take(k), open) by {
            assert(empty.take(k) =~= empty);
        }
    } else {
        lemma_span_counts(tokens, n - 1, block);
        let a = span_parts(tokens, n - 1);
        let b = token_parts(tokens, n - 1);
        lemma_count_concat(a, b, open);
        lemma_count_concat(a, b, close);
        assert(b.take(0) =~= empty);
        if b.len() == 0 {
            assert(b =~= empty);
        } else if b.len() == 1 {
            assert(b.take(1) =~= b);
            assert(b =~= seq![b[0]]);
            lemma_count_one(b[0], open);
            lemma_count_one(b[0], close);
        } else {
            assert(b.len() == 2);
            assert(b.take(2) =~= b);
            assert(b.take(1) =~= seq![b[0]]);
            assert(b =~= seq![b[0], b[1]]);
            lemma_count_one(b[0], open);
            lemma_count_one(b[0], close);
            lemma_count_one(b[1], open);
            lemma_count_one(b[1], close);
            lemma_count_two(b[0], b[1], open);
            lemma_count_two(b[0], b[1], close);
        }
        assert forall|j: int| 0 <= j <= b.len() implies count(a, close) + count(
            #[trigger] b.take(j),
            close,
        ) <= count(a, open) + count(b.take(j), open) by {
            assert(j == 0 || j == 1 || j == 2);
        }
        lemma_never_ahead_concat(a, b, block);
    }
}

/// The HTML text of any token sequence is made of parts among which, for
/// each kind of block, the opening tags are as many as the closing tags, and
/// no closing tag comes before the opening tag that it closes.
pub proof fn lemma_tags_closed(tokens: Seq<MdView>, block: Block)
    ensures
        html_text(tokens) == render(html_parts(tokens)),
        count(html_parts(tokens), HtmlPart::Open(block)) == count(
            html_parts(tokens),
            HtmlPart::Close(block),
        ),
        never_ahead(html_parts(tokens), block),
{
    let n = tokens.len() as int;
    let open = HtmlPart::Open(block);
    let close = HtmlPart::Close(block);
    let a = span_parts(tokens, n);
    let b = closing_parts(open_block(tokens, n));
    let empty = Seq::<HtmlPart>::empty();
    lemma_render_span(tokens, n);
    lemma_render_concat(a, b);
    assert(render(empty) =~= Seq::<char>::empty());
    if b.len() == 1 {
        assert(b.drop_last() =~= empty);
        assert(render(b) =~= closing(open_block(tokens, n)));
        assert(b.take(1) =~= b);
        assert(b =~= seq![b[0]]);
        lemma_count_one(b[0], open);
        lemma_count_one(b[0], close);
    } else {
        assert(b =~= empty);
    }
    assert(b.take(0) =~= empty);
    lemma_span_counts(tokens, n, block);
    lemma_count_concat(a, b, open);
    lemma_count_concat(a, b, close);
    assert forall|j: int| 0 <= j <= b.len() implies count(a, close) + count(
        #[trigger] b.take(j),
        close,
    ) <= count(a, open) + count(b.take(j), open) by {
        assert(j == 0 || j == 1);
    }
    lemma_never_ahead_concat(a, b, block);
}

/// How often the character `c` occurs in `s`.
pub open spec fn count_of(s: Seq<char>, c: char) -> nat
    decreases s.len(),
{
    if s.len() == 0 {
        0
    } else {
        count_of(s.drop_first(), c) + if s[0] == c {
            1nat
        } else {
            0nat
        }
    }
}

/// How often `</`, the start of a closing tag, occurs in `s`.
pub open spec fn closers_in(s: Seq<char>) -> nat
    decreases s.len(),
{
    if s.len() < 2 {
        0
    } else {
        closers_in(s.drop_first()) + if s[0] == '<' && s[1] == '/' {
            1nat
        } else {
            0nat
        }
    }
}

/// Occurrences of a character in a text of one character.
proof fn lemma_count_of_one(x: char, c: char)
    ensures
        count_of(seq![x], c) == if x == c {
            1nat
        } else {
            0nat
        },
{
    let one = seq![x];
    assert(one.drop_first() =~= Seq::<char>::empty());
    assert(count_of(one.drop_first(), c) == 0);
}

/// Occurrences of a character in two texts in a row add up.
pub proof fn lemma_count_of_concat(a: Seq<char>, b: Seq<char>, c: char)
    ensures
        count_of(a + b, c) == count_of(a, c) + count_of(b, c),
    decreases a.len(),
{
    if a.len() == 0 {
        assert(a + b =~= b);
    } else {
        assert((a + b).drop_first() =~= a.drop_first() + b);
        lemma_count_of_concat(a.drop_first(), b, c);
    }
}

/// Starts of closing tags in two texts in a row add up, where the first text
/// does not end in `<`.
pub proof fn lemma_closers_concat(a: Seq<char>, b: Seq<char>)
    requires
        a.len() == 0 || a.last() != '<',
    ensures
        closers_in(a + b) == closers_in(a) + closers_in(b),
    decreases a.len(),
{
    if a.len() == 0 {
        assert(a + b =~= b);
    } else {
        let rest = a.drop_first();
        assert((a + b).drop_first() =~= rest + b);
        if rest.len() > 0 {
            assert(rest.last() == a.last());
            assert((a + b)[1] == a[1]);
        } else if b.len() > 0 {
            assert((a + b)[1] == b[0]);
        }
        lemma_closers_concat(rest, b);
    }
}

/// A text without `<` holds no start of a closing tag and does not end in
/// `<`.
pub proof fn lemma_no_tag_start(s: Seq<char>)
    requires
        count_of(s, '<') == 0,
    ensures
        closers_in(s) == 0,
        s.len() == 0 || s.last() != '<',
    decreases s.len(),
{
    if s.len() > 0 {
        let rest = s.drop_first();
        lemma_no_tag_start(rest);
        if rest.len() > 0 {
            assert(rest.last() == s.last());
        }
    }
}

/// Replacing brings in no character that the replacement does not hold, and
/// takes away the character that is replaced.
pub proof fn lemma_replaced_without(s: Seq<char>, from: char, to: Seq<char>, c: char)
    requires
        count_of(to, c) == 0,
        c == from || count_of(s, c) == 0,
    ensures
        count_of(replaced(s, from, to), c) == 0,
    decreases s.len(),
{
    if s.len() > 0 {
        let rest = s.drop_first();
        lemma_replaced_without(rest, from, to, c);
        if s[0] == from {
            lemma_count_of_concat(to, replaced(rest, from, to), c);
        } else {
            let one = seq![s[0]];
            lemma_count_of_one(s[0], c);
            lemma_count_of_concat(one, replaced(rest, from, to), c);
        }
    }
}

/// Escaped text holds no `<`.
pub proof fn lemma_escaped_without_tags(text: Seq<char>)
    ensures
        count_of(escaped(text), '<') == 0,
{
    let amp = seq!['&', 'a', 'm', 'p', ';'];
    let lt = seq!['&', 'l', 't', ';'];
    let gt = seq!['&', 'g', 't', ';'];
    reveal_with_fuel(count_of, 6);
    assert(count_of(lt, '<') == 0);
    assert(count_of(gt, '<') == 0);
    let first = replaced(text, '&', amp);
    let second = replaced(first, '<', lt);
    lemma_replaced_without(first, '<', lt, '<');
    lemma_replaced_without(second, '>', gt, '<');
}

/// A tag holds one `<`; a closing tag starts as one, an opening tag does
/// not; and both end in `>`.
proof fn lemma_tag_counts(block: Block)
    ensures
        count_of(open_tag(block), '<') == 1,
        closers_in(open_tag(block)) == 0,
        open_tag(block).last() == '>',
        count_of(close_tag(block), '<') == 1,
        closers_in(close_tag(block)) == 1,
        close_tag(block).last() == '>',
{
    reveal_with_fuel(count_of, 6);
    reveal_with_fuel(closers_in, 6);
    if block == Block::Paragraph {
        assert(open_tag(block) =~= seq!['<', 'p', '>']);
        assert(close_tag(block) =~= seq!['<', '/', 'p', '>']);
    } else {
        let digit = tag_name(block)[1];
        assert(open_tag(block) =~= seq!['<', 'h', digit, '>']);
        assert(close_tag(block) =~= seq!['<', '/', 'h', digit, '>']);
    }
}

/// In the HTML text of the first `n` tokens, every `<` starts a tag: the
/// closing tags and as many opening tags, and one more opening tag where a
/// block is open. The text does not end in `<`.
proof fn lemma_span_tags(tokens: Seq<MdView>, n: int)
    requires
        0 <= n <= tokens.len(),
    ensures
        count_of(html_span(tokens, 0, n), '<') == 2 * closers_in(html_span(tokens, 0, n))
            + if open_block(tokens, n) is Some {
            1nat
        } else {
            0nat
        },
        html_span(tokens, 0, n).len() == 0 || html_span(tokens, 0, n).last() != '<',
    decreases n,
{
    if n > 0 {
        lemma_span_tags(tokens, n - 1);
        let before = html_span(tokens, 0, n - 1);
        let piece = html_piece(tokens, n - 1);
        lemma_count_of_concat(before, piece, '<');
        lemma_closers_concat(before, piece);
        match tokens[n - 1] {
            MdView::Text(text) => {
                let body = escaped(text);
                lemma_escaped_without_tags(text);
                if n - 1 > 0 && tokens[n - 2] is Text {
                    let space = seq![' '];
                    lemma_count_of_one(' ', '<');
                    lemma_count_of_concat(space, body, '<');
                }
                lemma_no_tag_start(piece);
            },
            token => match token.block() {
                Some(block) => {
                    lemma_tag_counts(block);
                    let open = open_block(tokens, n - 1);
                    let close = closing(open);
                    if let Some(last) = open {
                        lemma_tag_counts(last);
                    }
                    lemma_count_of_concat(close, open_tag(block), '<');
                    lemma_closers_concat(close, open_tag(block));
                    assert(piece.last() == '>');
                },
                None => {
                    assert(before + piece =~= before);
                },
            },
        }
        let all = before + piece;
        if piece.len() > 0 {
            assert(all.last() == piece.last());
        } else {
            assert(all =~= before);
        }
    }
}

/// In the HTML text of any token sequence, every `<` starts a tag, and the
/// closing tags are half of the tags: as many tags close an element as open
/// one. Text cannot add a tag, since `<` is escaped in it.
pub proof fn lemma_tags_balance(tokens: Seq<MdView>)
    ensures
        count_of(html_text(tokens), '<') == 2 * closers_in(html_text(tokens)),
{
    let n = tokens.len() as int;
    let body = html_span(tokens, 0, n);
    let end = closing(open_block(tokens, n));
    lemma_span_tags(tokens, n);
    lemma_count_of_concat(body, end, '<');
    lemma_closers_concat(body, end);
    if let Some(block) = open_block(tokens, n) {
        lemma_tag_counts(block);
    }
}

} // verus!
