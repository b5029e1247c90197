//! Documents of blocks with one text each, and their Markdown text

use vstd::prelude::*;

use crate::decode::Fault;
use crate::decoder::{
    decode_lines, heading_token, is_white_space, line_tokens, starting_after, stream_of,
    trimmed_start, white_space_run,
};
use crate::encoder::{md_piece, md_prefix, md_span, md_text};
use crate::line_reader::{split, text_lines};
use crate::md::{Block, MdView};
use crate::proofs::decoding::{
    blank_lines, is_paragraph_line, lemma_decode_blank_lines, lemma_decode_line,
    lemma_heading_levels, marker,
};
use crate::proofs::lines::{
    free_of, join, lemma_join_push, lemma_split_first, lemma_split_join, lemma_split_whole,
};

verus! {

/// The token that opens a block.
pub open spec fn opener(block: Block) -> MdView {
    match block {
        Block::Paragraph => MdView::Paragraph,
        Block::Heading1 => MdView::Heading1,
        Block::Heading2 => MdView::Heading2,
        Block::Heading3 => MdView::Heading3,
        Block::Heading4 => MdView::Heading4,
        Block::Heading5 => MdView::Heading5,
        Block::Heading6 => MdView::Heading6,
    }
}

/// The tokens of a document of blocks with one text each: for each block its
/// opener, then its text.
pub open spec fn block_tokens(blocks: Seq<(Block, Seq<char>)>) -> Seq<MdView> {
    Seq::new(
        2 * blocks.len(),
        |i: int|
            if i % 2 == 0 {
                opener(blocks[i / 2].0)
            } else {
                MdView::Text(blocks[i / 2].1)
            },
    )
}

/// A text that the decoder can have given a block: it holds no newline; in a
/// paragraph it is a paragraph line; in a heading no white space stands at
/// its start.
pub open spec fn is_block_text(block: Block, text: Seq<char>) -> bool {
    &&& free_of(text, '\n')
    &&& if block == Block::Paragraph {
        is_paragraph_line(text)
    } else {
        text.len() == 0 || !is_white_space(text[0])
    }
}

/// Every block of the document holds a text that the decoder can have given
/// it.
pub open spec fn is_decoded_document(blocks: Seq<(Block, Seq<char>)>) -> bool {
    forall|j: int| 0 <= j < blocks.len() ==> is_block_text((#[trigger] blocks[j]).0, blocks[j].1)
}

/// The line that a block is written as in Markdown.
pub open spec fn block_line(block: (Block, Seq<char>)) -> Seq<char> {
    md_prefix(block.0) + block.1
}

/// The lines of the Markdown text of a document: the line of each block, and
/// an empty line after it.
pub open spec fn document_lines(blocks: Seq<(Block, Seq<char>)>) -> Seq<Seq<char>> {
    Seq::new(
        2 * blocks.len(),
        |i: int|
            if i % 2 == 0 {
                block_line(blocks[i / 2])
            } else {
                Seq::empty()
            },
    )
}

/// The line of a block decodes to the opener of the block and its text.
proof fn lemma_block_line_tokens(block: Block, text: Seq<char>)
    requires
        is_block_text(block, text),
    ensures
        block_line((block, text)).len() > 0,
        free_of(block_line((block, text)), '\n'),
        line_tokens(block_line((block, text)), true) == seq![opener(block), MdView::Text(text)],
{
    let line = block_line((block, text));
    if block == Block::Paragraph {
        assert(line =~= text);
    } else {
        let level = block.level();
        assert(md_prefix(block) =~= marker(level) + seq![' ']);
        assert(line =~= marker(level) + seq![' '] + text);
        lemma_heading_levels(level, seq![' '], text, true);
        assert(heading_token(level) == opener(block));
    }
}

/// The Markdown text of the first `n` blocks is their lines joined by
/// newlines.
proof fn lemma_document_text(blocks: Seq<(Block, Seq<char>)>, n: int)
    requires
        1 <= n <= blocks.len(),
    ensures
        md_span(block_tokens(blocks), 0, 2 * n).push('\n') == join(
            document_lines(blocks.take(n)),
            '\n',
        ),
    decreases n,
{
    let tokens = block_tokens(blocks);
    let last = blocks[n - 1];
    let none = Seq::<char>::empty();
    assert(tokens[2 * n - 2] == opener(last.0));
    assert(tokens[2 * n - 1] == MdView::Text(last.1));
    assert(md_piece(tokens, 2 * n - 1) == last.1);
    assert(md_span(tokens, 0, 2 * n) == md_span(tokens, 0, 2 * n - 1) + md_piece(
        tokens,
        2 * n - 1,
    ));
    assert(md_span(tokens, 0, 2 * n - 1) == md_span(tokens, 0, 2 * n - 2) + md_piece(
        tokens,
        2 * n - 2,
    ));
    if n == 1 {
        assert(md_span(tokens, 0, 0) =~= none);
        assert(md_piece(tokens, 0) == md_prefix(last.0));
        let lines = document_lines(blocks.take(1));
        assert(lines =~= seq![block_line(last), none]);
        assert(lines.drop_first() =~= seq![none]);
        assert(join(lines.drop_first(), '\n') == none);
        assert(join(lines, '\n') =~= block_line(last) + seq!['\n']);
        assert(md_span(tokens, 0, 2).push('\n') =~= join(lines, '\n'));
    } else {
        lemma_document_text(blocks, n - 1);
        let before = document_lines(blocks.take(n - 1));
        assert(md_piece(tokens, 2 * n - 2) == seq!['\n', '\n'] + md_prefix(last.0));
        assert(document_lines(blocks.take(n)) =~= before.push(block_line(last)).push(none));
        lemma_join_push(before, '\n', block_line(last));
        lemma_join_push(before.push(block_line(last)), '\n', none);
        assert(md_span(tokens, 0, 2 * n).push('\n') =~= join(
            document_lines(blocks.take(n)),
            '\n',
        ));
    }
}

/// The lines of a document decode to its tokens.
proof fn lemma_decode_document_lines(blocks: Seq<(Block, Seq<char>)>)
    requires
        is_decoded_document(blocks),
    ensures
        decode_lines(text_lines(document_lines(blocks)), true) == stream_of(block_tokens(blocks)),
    decreases blocks.len(),
{
    let lines = text_lines(document_lines(blocks));
    if blocks.len() == 0 {
        assert(lines =~= Seq::<Option<Seq<char>>>::empty());
        assert(stream_of(block_tokens(blocks)) =~= Seq::<Result<MdView, Fault>>::empty());
    } else {
        let first = blocks[0];
        let rest = blocks.drop_first();
        assert(is_block_text(first.0, first.1));
        assert forall|j: int| 0 <= j < rest.len() implies is_block_text(
            (#[trigger] rest[j]).0,
            rest[j].1,
        ) by {
            assert(rest[j] == blocks[j + 1]);
        }
        lemma_decode_document_lines(rest);
        lemma_block_line_tokens(first.0, first.1);
        let after = text_lines(document_lines(rest));
        let blank = seq![Some(Seq::<char>::empty())];
        assert(lines =~= seq![Some(block_line(first))] + (blank + after)) by {
            assert forall|i: int| 0 <= i < lines.len() implies lines[i] == (seq![
                Some(block_line(first)),
            ] + (blank + after))[i] by {
                if i >= 2 {
                    assert((i - 2) / 2 == i / 2 - 1);
                    assert((i - 2) % 2 == i % 2);
                    assert(rest[(i - 2) / 2] == blocks[i / 2]);
                }
            }
        }
        lemma_decode_line(block_line(first), blank + after, true);
        assert((blank + after)[0] == Some(Seq::<char>::empty()));
        assert((blank + after).drop_first() =~= after);
        assert(decode_lines(blank + after, starting_after(block_line(first))) == decode_lines(
            after,
            true,
        ));
        assert(stream_of(seq![opener(first.0), MdView::Text(first.1)]) + stream_of(
            block_tokens(rest),
        ) =~= stream_of(block_tokens(blocks))) by {
            let both = stream_of(seq![opener(first.0), MdView::Text(first.1)]) + stream_of(
                block_tokens(rest),
            );
            assert forall|i: int| 0 <= i < both.len() implies both[i] == stream_of(
                block_tokens(blocks),
            )[i] by {
                if i >= 2 {
                    assert((i - 2) / 2 == i / 2 - 1);
                    assert((i - 2) % 2 == i % 2);
                    assert(rest[(i - 2) / 2] == blocks[i / 2]);
                }
            }
        }
    }
}

/// Decoding the lines of the Markdown text of a document gives its tokens
/// back, where every block holds a text that the decoder can have given it.
pub proof fn lemma_decode_markdown(blocks: Seq<(Block, Seq<char>)>)
    requires
        is_decoded_document(blocks),
    ensures
        decode_lines(text_lines(split(md_text(block_tokens(blocks)), '\n')), true) == stream_of(
            block_tokens(blocks),
        ),
{
    let tokens = block_tokens(blocks);
    let none = Seq::<char>::empty();
    if blocks.len() == 0 {
        assert(md_span(tokens, 0, 0) =~= none);
        assert(md_text(tokens) =~= none + seq!['\n'] + none);
        lemma_split_first(none, '\n', none);
        lemma_split_whole(none, '\n');
        let lines = text_lines(split(md_text(tokens), '\n'));
        let end = Seq::<Option<Seq<char>>>::empty();
        assert(lines =~= blank_lines(2) + end);
        lemma_decode_blank_lines(2, end, true);
        assert(decode_lines(end, true) =~= Seq::<Result<MdView, Fault>>::empty());
        assert(stream_of(tokens) =~= Seq::<Result<MdView, Fault>>::empty());
    } else {
        let n = blocks.len() as int;
        let lines = document_lines(blocks);
        lemma_document_text(blocks, n);
        assert(blocks.take(n) =~= blocks);
        assert forall|i: int| 0 <= i < lines.len() implies free_of(#[trigger] lines[i], '\n') by {
            if i % 2 == 0 {
                let block = blocks[i / 2];
                assert(is_block_text(block.0, block.1));
                lemma_block_line_tokens(block.0, block.1);
            }
        }
        lemma_split_join(lines, '\n');
        lemma_decode_document_lines(blocks);
    }
}

/// Whatever stands at the start of a trimmed text is no white space, and
/// the trimmed text is an end of the text.
pub proof fn lemma_trimmed_start_is_tight(s: Seq<char>)
    ensures
        white_space_run(s) <= s.len(),
        trimmed_start(s).len() == 0 || !is_white_space(trimmed_start(s)[0]),
    decreases s.len(),
{
    if s.len() > 0 && is_white_space(s[0]) {
        let rest = s.drop_first();
        lemma_trimmed_start_is_tight(rest);
        assert(trimmed_start(s) =~= trimmed_start(rest));
    } else {
        assert(trimmed_start(s) =~= s);
    }
}

/// The token sequence is made of pairs: a block opener, then a text.
pub open spec fn is_block_form(tokens: Seq<MdView>) -> bool {
    &&& tokens.len() % 2 == 0
    &&& forall|i: int|
        0 <= i < tokens.len() ==> if i % 2 == 0 {
            (#[trigger] tokens[i]).block() is Some
        } else {
            tokens[i] is Text
        }
}

/// The blocks of a token sequence made of pairs.
pub open spec fn blocks_of(tokens: Seq<MdView>) -> Seq<(Block, Seq<char>)> {
    Seq::new(tokens.len() / 2, |j: int| (tokens[2 * j].block()->0, tokens[2 * j + 1]->Text_0))
}

/// A token sequence made of pairs is the token sequence of its blocks.
pub proof fn lemma_block_form_tokens(tokens: Seq<MdView>)
    requires
        is_block_form(tokens),
    ensures
        block_tokens(blocks_of(tokens)) == tokens,
{
    let again = block_tokens(blocks_of(tokens));
    assert forall|i: int| 0 <= i < tokens.len() implies again[i] == tokens[i] by {
        if i % 2 == 0 {
            assert(2 * (i / 2) == i);
            assert(tokens[i].block() is Some);
        } else {
            assert(2 * (i / 2) + 1 == i);
            assert(tokens[i] is Text);
        }
    }
    assert(again =~= tokens);
}

} // verus!
