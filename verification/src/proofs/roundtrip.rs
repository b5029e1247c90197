//! Decoding the Markdown text of what was decoded

use vstd::prelude::*;
use vstd::utf8::encode_utf8;

use crate::decode::Fault;
use crate::decoder::{
    decode, decode_lines, decode_text, hashes, heading_level, lemma_hashes, line_tokens,
    starting_after, stream_of, white_space_run,
};
use crate::encoder::{md_piece, md_span, md_text};
use crate::line_reader::{byte_lines, text_lines};
use crate::md::{Block, MdView};
use crate::proofs::blocks::{
    blocks_of, is_block_form, is_block_text, is_decoded_document, lemma_block_form_tokens,
    lemma_decode_markdown, lemma_trimmed_start_is_tight,
};
use crate::proofs::decoding::is_paragraph_line;
use crate::proofs::lines::{all_free_of, free_of};
use crate::proofs::text::{lemma_byte_lines_free, lemma_encoded_lines};

verus! {

/// No paragraph of the token sequence holds more than one text: no text
/// follows a text.
pub open spec fn one_text_each(tokens: Seq<MdView>) -> bool {
    forall|i: int|
        0 <= i < tokens.len() - 1 ==> !(#[trigger] tokens[i] is Text && tokens[i + 1] is Text)
}

/// The token sequence with every run of texts folded into one text: the
/// texts of the run, joined by single spaces.
pub open spec fn folded(tokens: Seq<MdView>) -> Seq<MdView>
    decreases tokens.len(),
{
    if tokens.len() == 0 {
        Seq::empty()
    } else {
        let before = folded(tokens.drop_last());
        match tokens.last() {
            MdView::Text(text) => if before.len() > 0 && before.last() is Text {
                before.drop_last().push(MdView::Text(before.last()->Text_0 + seq![' '] + text))
            } else {
                before.push(tokens.last())
            },
            _ => before.push(tokens.last()),
        }
    }
}

/// Folding keeps whether the sequence is empty and whether it ends in a
/// text, and leaves no text behind a text.
pub proof fn lemma_folded_shape(tokens: Seq<MdView>)
    ensures
        folded(tokens).len() <= tokens.len(),
        (folded(tokens).len() == 0) == (tokens.len() == 0),
        tokens.len() > 0 ==> (folded(tokens).last() is Text) == (tokens.last() is Text),
        tokens.len() > 0 && !(tokens.last() is Text) ==> folded(tokens).last() == tokens.last(),
        one_text_each(folded(tokens)),
    decreases tokens.len(),
{
    if tokens.len() > 0 {
        let before = folded(tokens.drop_last());
        let after = folded(tokens);
        lemma_folded_shape(tokens.drop_last());
        assert forall|i: int| 0 <= i < after.len() - 1 implies !(#[trigger] after[i] is Text
            && after[i + 1] is Text) by {
            if i + 1 < before.len() {
                assert(after[i] == before[i]);
                if i + 1 < after.len() - 1 {
                    assert(after[i + 1] == before[i + 1]);
                }
            }
        }
    }
}

/// The Markdown text of a span depends on the tokens of the span alone.
pub proof fn lemma_span_agrees(a: Seq<MdView>, b: Seq<MdView>, n: int)
    requires
        0 <= n <= a.len(),
        n <= b.len(),
        forall|i: int| 0 <= i < n ==> a[i] == b[i],
    ensures
        md_span(a, 0, n) == md_span(b, 0, n),
    decreases n,
{
    if n > 0 {
        lemma_span_agrees(a, b, n - 1);
        assert(a[n - 1] == b[n - 1]);
        if n > 1 {
            assert(a[n - 2] == b[n - 2]);
        }
        assert(md_piece(a, n - 1) == md_piece(b, n - 1));
    }
}

/// Folded or not, the tokens have the same Markdown text up to the end.
proof fn lemma_folded_span(tokens: Seq<MdView>)
    ensures
        md_span(folded(tokens), 0, folded(tokens).len() as int) == md_span(
            tokens,
            0,
            tokens.len() as int,
        ),
    decreases tokens.len(),
{
    let n = tokens.len() as int;
    if n > 0 {
        let shorter = tokens.drop_last();
        let before = folded(shorter);
        let after = folded(tokens);
        let m = before.len() as int;
        lemma_folded_span(shorter);
        lemma_folded_shape(shorter);
        lemma_span_agrees(tokens, shorter, n - 1);
        assert(md_span(tokens, 0, n) == md_span(tokens, 0, n - 1) + md_piece(tokens, n - 1));
        if n > 1 {
            assert(tokens[n - 2] == shorter.last());
        }
        match tokens.last() {
            MdView::Text(text) => {
                if m > 0 && before.last() is Text {
                    let joined = before.last()->Text_0;
                    assert(after.len() == m);
                    lemma_span_agrees(after, before, m - 1);
                    assert(md_span(after, 0, m) == md_span(after, 0, m - 1) + md_piece(
                        after,
                        m - 1,
                    ));
                    assert(md_span(before, 0, m) == md_span(before, 0, m - 1) + md_piece(
                        before,
                        m - 1,
                    ));
                    if m > 1 {
                        assert(!(before[m - 2] is Text && before[m - 2 + 1] is Text));
                        assert(after[m - 2] == before[m - 2]);
                    }
                    assert(md_piece(before, m - 1) == joined);
                    assert(md_piece(after, m - 1) == joined + seq![' '] + text);
                    assert(md_piece(tokens, n - 1) == seq![' '] + text);
                    assert(md_span(after, 0, m) =~= md_span(tokens, 0, n));
                } else {
                    assert(after.len() == m + 1);
                    lemma_span_agrees(after, before, m);
                    assert(md_span(after, 0, m + 1) == md_span(after, 0, m) + md_piece(after, m));
                    if m > 0 {
                        assert(after[m - 1] == before.last());
                    }
                    assert(md_piece(after, m) == text);
                    assert(md_piece(tokens, n - 1) == text);
                }
            },
            _ => {
                assert(after.len() == m + 1);
                lemma_span_agrees(after, before, m);
                assert(md_span(after, 0, m + 1) == md_span(after, 0, m) + md_piece(after, m));
                assert(after[m] == tokens[n - 1]);
                assert(md_piece(after, m) == md_piece(tokens, n - 1));
            },
        }
    }
}

/// The Markdown encoder writes a run of texts as it writes the one text that
/// they fold to: folding changes nothing in the Markdown text.
pub proof fn lemma_folded_text(tokens: Seq<MdView>)
    ensures
        md_text(folded(tokens)) == md_text(tokens),
{
    lemma_folded_span(tokens);
}

/// Whether the line after `lines` begins a paragraph, where the line after
/// no line does so if `starting`.
pub open spec fn starting_beyond(lines: Seq<Seq<char>>, starting: bool) -> bool {
    if lines.len() == 0 {
        starting
    } else if lines.last().len() == 0 {
        true
    } else {
        starting_after(lines.last())
    }
}

/// The tokens that lines of text decode to.
pub open spec fn lines_tokens(lines: Seq<Seq<char>>, starting: bool) -> Seq<MdView>
    decreases lines.len(),
{
    if lines.len() == 0 {
        Seq::empty()
    } else if lines.last().len() == 0 {
        lines_tokens(lines.drop_last(), starting)
    } else {
        lines_tokens(lines.drop_last(), starting) + line_tokens(
            lines.last(),
            starting_beyond(lines.drop_last(), starting),
        )
    }
}

/// The tokens of lines are the tokens of the first line, then those of the
/// lines after it.
proof fn lemma_lines_tokens_first(first: Seq<char>, rest: Seq<Seq<char>>, starting: bool)
    ensures
        lines_tokens(seq![first] + rest, starting) == lines_tokens(seq![first], starting)
            + lines_tokens(rest, starting_beyond(seq![first], starting)),
    decreases rest.len(),
{
    let all = seq![first] + rest;
    let next = starting_beyond(seq![first], starting);
    if rest.len() == 0 {
        assert(all =~= seq![first]);
        assert(lines_tokens(seq![first], starting) + lines_tokens(rest, next) =~= lines_tokens(
            seq![first],
            starting,
        ));
    } else {
        let shorter = rest.drop_last();
        assert(all.drop_last() =~= seq![first] + shorter);
        assert(all.last() == rest.last());
        lemma_lines_tokens_first(first, shorter, starting);
        if shorter.len() > 0 {
            assert((seq![first] + shorter).last() == shorter.last());
        } else {
            assert(seq![first] + shorter =~= seq![first]);
        }
        assert(starting_beyond(seq![first] + shorter, starting) == starting_beyond(shorter, next));
        assert(lines_tokens(all, starting) =~= lines_tokens(seq![first], starting) + lines_tokens(
            rest,
            next,
        ));
    }
}

/// Lines of text decode, without fault, to their tokens.
pub proof fn lemma_decode_lines_tokens(lines: Seq<Seq<char>>, starting: bool)
    ensures
        decode_lines(text_lines(lines), starting) == stream_of(lines_tokens(lines, starting)),
    decreases lines.len(),
{
    if lines.len() == 0 {
        assert(decode_lines(text_lines(lines), starting) =~= stream_of(
            lines_tokens(lines, starting),
        ));
    } else {
        let first = lines[0];
        let rest = lines.drop_first();
        let one = seq![first];
        let next = starting_beyond(one, starting);
        assert(lines =~= one + rest);
        assert(text_lines(lines)[0] == Some(first));
        assert(text_lines(lines).drop_first() =~= text_lines(rest));
        lemma_lines_tokens_first(first, rest, starting);
        lemma_decode_lines_tokens(rest, next);
        assert(one.drop_last() =~= Seq::<Seq<char>>::empty());
        assert(lines_tokens(one.drop_last(), starting) =~= Seq::<MdView>::empty());
        if first.len() == 0 {
            assert(lines_tokens(one, starting) =~= Seq::<MdView>::empty());
        } else {
            assert(lines_tokens(one, starting) =~= line_tokens(first, starting));
        }
        assert(decode_lines(text_lines(lines), starting) =~= stream_of(
            lines_tokens(lines, starting),
        ));
    }
}

/// Lines that decode without fault are all text.
proof fn lemma_all_text(lines: Seq<Option<Seq<char>>>, starting: bool, tokens: Seq<MdView>)
    requires
        decode_lines(lines, starting) == stream_of(tokens),
    ensures
        forall|i: int| 0 <= i < lines.len() ==> (#[trigger] lines[i]) is Some,
    decreases lines.len(),
{
    if lines.len() > 0 {
        let rest = lines.drop_first();
        let stream = stream_of(tokens);
        match lines[0] {
            None => {
                assert(stream.len() == 1);
                assert(stream[0] == Ok::<MdView, Fault>(tokens[0]));
            },
            Some(line) => {
                if line.len() == 0 {
                    lemma_all_text(rest, true, tokens);
                } else {
                    let emitted = stream_of(line_tokens(line, starting));
                    let tail = decode_lines(rest, starting_after(line));
                    let k = emitted.len() as int;
                    assert(stream == emitted + tail);
                    assert(stream.len() == k + tail.len());
                    let others = tokens.skip(k);
                    assert(tail =~= stream_of(others)) by {
                        assert forall|i: int| 0 <= i < tail.len() implies tail[i] == stream_of(
                            others,
                        )[i] by {
                            assert(tail[i] == stream[i + k]);
                        }
                    }
                    lemma_all_text(rest, starting_after(line), others);
                }
                assert forall|i: int| 0 <= i < lines.len() implies (#[trigger] lines[i]) is Some by {
                    if i > 0 {
                        assert(lines[i] == rest[i - 1]);
                    }
                }
            },
        }
    }
}

/// The `#` that a line starts with, and what ends their run.
proof fn lemma_hashes_run(line: Seq<char>)
    ensures
        hashes(line) <= line.len(),
        forall|i: int| 0 <= i < hashes(line) ==> line[i] == '#',
        hashes(line) < line.len() ==> line[hashes(line) as int] != '#',
    decreases line.len(),
{
    if line.len() > 0 && line[0] == '#' {
        let rest = line.drop_first();
        lemma_hashes_run(rest);
        assert forall|i: int| 0 <= i < hashes(line) implies line[i] == '#' by {
            if i > 0 {
                assert(line[i] == rest[i - 1]);
            }
        }
        if hashes(line) < line.len() {
            assert(line[hashes(line) as int] == rest[hashes(rest) as int]);
        }
    }
}

/// A paragraph line is still one when a space and more text follow it.
pub proof fn lemma_paragraph_line_extends(line: Seq<char>, more: Seq<char>)
    requires
        is_paragraph_line(line),
    ensures
        is_paragraph_line(line + seq![' '] + more),
{
    let longer = line + seq![' '] + more;
    let h = hashes(line) as int;
    lemma_hashes_run(line);
    assert forall|i: int| 0 <= i < h implies longer[i] == '#' by {
        assert(longer[i] == line[i]);
    }
    if h < line.len() {
        assert(longer[h] == line[h]);
    } else {
        assert(longer[h] == ' ');
    }
    lemma_hashes(longer, h);
}

/// What lines of text without newline decode to folds to a document of
/// blocks with one text each, every text as `is_block_text` describes; and
/// where the next line would go on with a paragraph, the last block is that
/// paragraph.
proof fn lemma_folded_lines(lines: Seq<Seq<char>>)
    requires
        all_free_of(lines, '\n'),
    ensures
        is_block_form(folded(lines_tokens(lines, true))),
        is_decoded_document(blocks_of(folded(lines_tokens(lines, true)))),
        !starting_beyond(lines, true) ==> folded(lines_tokens(lines, true)).len() >= 2 && folded(
            lines_tokens(lines, true),
        )[folded(lines_tokens(lines, true)).len() - 2] == MdView::Paragraph,
    decreases lines.len(),
{
    let tokens = lines_tokens(lines, true);
    let after = folded(tokens);
    if lines.len() == 0 {
        assert(after =~= Seq::<MdView>::empty());
    } else {
        let shorter = lines.drop_last();
        let line = lines.last();
        let earlier = lines_tokens(shorter, true);
        let before = folded(earlier);
        let m = before.len() as int;
        assert forall|i: int| 0 <= i < shorter.len() implies free_of(#[trigger] shorter[i], '\n') by {
            assert(shorter[i] == lines[i]);
        }
        assert(free_of(line, '\n'));
        lemma_folded_lines(shorter);
        let old_blocks = blocks_of(before);
        if line.len() == 0 {
        } else if heading_level(line) is None && !starting_beyond(shorter, true) {
            let text = MdView::Text(line);
            assert(tokens =~= earlier.push(text));
            assert(tokens.drop_last() =~= earlier);
            assert(before[m - 1] is Text);
            let joined = before.last()->Text_0;
            let longer = joined + seq![' '] + line;
            assert(after == before.drop_last().push(MdView::Text(longer)));
            assert(old_blocks[m / 2 - 1] == (Block::Paragraph, joined)) by {
                assert(2 * (m / 2 - 1) == m - 2);
            }
            assert(is_block_text(old_blocks[m / 2 - 1].0, old_blocks[m / 2 - 1].1));
            lemma_paragraph_line_extends(joined, line);
            assert forall|i: int| 0 <= i < longer.len() implies longer[i] != '\n' by {
                if i < joined.len() {
                    assert(longer[i] == joined[i]);
                } else if i > joined.len() {
                    assert(longer[i] == line[i - joined.len() - 1]);
                }
            }
            assert forall|i: int| 0 <= i < after.len() implies if i % 2 == 0 {
                (#[trigger] after[i]).block() is Some
            } else {
                after[i] is Text
            } by {
                if i < m - 1 {
                    assert(after[i] == before[i]);
                }
            }
            let blocks = blocks_of(after);
            assert forall|j: int| 0 <= j < blocks.len() implies is_block_text(
                (#[trigger] blocks[j]).0,
                blocks[j].1,
            ) by {
                if j < m / 2 - 1 {
                    assert(after[2 * j] == before[2 * j]);
                    assert(after[2 * j + 1] == before[2 * j + 1]);
                    assert(blocks[j] == old_blocks[j]);
                } else {
                    assert(2 * j == m - 2);
                    assert(after[2 * j] == before[m - 2]);
                    assert(blocks[j] == (Block::Paragraph, longer));
                }
            }
        } else {
            let emitted = line_tokens(line, starting_beyond(shorter, true));
            let open = emitted[0];
            let text = emitted[1];
            assert(emitted =~= seq![open, text]);
            assert(tokens =~= earlier.push(open).push(text));
            assert(tokens.drop_last() =~= earlier.push(open));
            assert(earlier.push(open).drop_last() =~= earlier);
            assert(folded(earlier.push(open)) == before.push(open));
            assert(after == before.push(open).push(text));
            assert forall|i: int| 0 <= i < after.len() implies if i % 2 == 0 {
                (#[trigger] after[i]).block() is Some
            } else {
                after[i] is Text
            } by {
                if i < m {
                    assert(after[i] == before[i]);
                }
            }
            let block = open.block()->0;
            let content = text->Text_0;
            match heading_level(line) {
                Some(level) => {
                    lemma_hashes_run(line);
                    let rest = line.skip(level as int);
                    lemma_trimmed_start_is_tight(rest);
                    assert forall|i: int| 0 <= i < content.len() implies content[i] != '\n' by {
                        assert(content[i] == line[level + white_space_run(rest) + i]);
                    }
                },
                None => {
                    assert(content == line);
                },
            }
            assert(is_block_text(block, content));
            let blocks = blocks_of(after);
            assert forall|j: int| 0 <= j < blocks.len() implies is_block_text(
                (#[trigger] blocks[j]).0,
                blocks[j].1,
            ) by {
                if j < m / 2 {
                    assert(after[2 * j] == before[2 * j]);
                    assert(after[2 * j + 1] == before[2 * j + 1]);
                    assert(blocks[j] == old_blocks[j]);
                } else {
                    assert(2 * j == m);
                    assert(blocks[j] == (block, content));
                }
            }
        }
    }
}

/// Where a byte buffer decodes without fault, decoding the Markdown text of
/// its tokens gives the tokens folded: every paragraph with its texts joined
/// into one. The folded tokens have the same Markdown text, so that encoding
/// what was decoded from Markdown text written by the encoder gives that text
/// again.
pub proof fn lemma_round_trip_folds(input: Seq<u8>, tokens: Seq<MdView>)
    requires
        decode(input) == stream_of(tokens),
    ensures
        decode_text(md_text(tokens)) == stream_of(folded(tokens)),
        decode(encode_utf8(md_text(tokens))) == stream_of(folded(tokens)),
        md_text(folded(tokens)) == md_text(tokens),
{
    let given = byte_lines(input);
    lemma_all_text(given, true, tokens);
    lemma_byte_lines_free(input);
    let lines = Seq::new(given.len(), |i: int| given[i]->0);
    assert(text_lines(lines) =~= given);
    assert forall|i: int| 0 <= i < lines.len() implies free_of(#[trigger] lines[i], '\n') by {
        assert(given[i] is Some);
    }
    lemma_decode_lines_tokens(lines, true);
    let decoded = lines_tokens(lines, true);
    assert(tokens =~= decoded) by {
        assert(stream_of(tokens).len() == stream_of(decoded).len());
        assert forall|i: int| 0 <= i < tokens.len() implies tokens[i] == decoded[i] by {
            assert(stream_of(tokens)[i] == stream_of(decoded)[i]);
        }
    }
    lemma_folded_lines(lines);
    lemma_block_form_tokens(folded(tokens));
    lemma_decode_markdown(blocks_of(folded(tokens)));
    lemma_folded_text(tokens);
    lemma_encoded_lines(md_text(tokens));
}

/// Where no text follows a text, folding changes nothing.
pub proof fn lemma_folded_same(tokens: Seq<MdView>)
    requires
        one_text_each(tokens),
    ensures
        folded(tokens) == tokens,
    decreases tokens.len(),
{
    if tokens.len() > 0 {
        let shorter = tokens.drop_last();
        assert forall|i: int| 0 <= i < shorter.len() - 1 implies !(#[trigger] shorter[i] is Text
            && shorter[i + 1] is Text) by {
            assert(shorter[i] == tokens[i]);
            assert(shorter[i + 1] == tokens[i + 1]);
        }
        lemma_folded_same(shorter);
        if shorter.len() > 0 {
            let i = shorter.len() - 1;
            assert(!(tokens[i] is Text && tokens[i + 1] is Text));
            assert(shorter.last() == tokens[i]);
        }
        assert(shorter.push(tokens.last()) =~= tokens);
    }
}

/// Where a byte buffer decodes, without fault, to tokens among which no
/// paragraph holds more than one text, decoding the Markdown text of the
/// tokens gives the same tokens again.
pub proof fn lemma_round_trip(input: Seq<u8>, tokens: Seq<MdView>)
    requires
        decode(input) == stream_of(tokens),
        one_text_each(tokens),
    ensures
        decode_text(md_text(tokens)) == stream_of(tokens),
        decode(encode_utf8(md_text(tokens))) == stream_of(tokens),
{
    lemma_round_trip_folds(input, tokens);
    lemma_folded_same(tokens);
}

} // verus!
