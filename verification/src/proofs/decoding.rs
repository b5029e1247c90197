//! What the decoder makes of paragraphs and headings

use vstd::prelude::*;

use crate::decoder::{
    decode_lines, hashes, heading_level, heading_token, is_white_space, lemma_hashes,
    line_tokens, starting_after, stream_of, trimmed_start, white_space_run,
};
use crate::encoder::{md_piece, md_span, md_text};
use crate::line_reader::text_lines;
use crate::md::MdView;
use crate::proofs::lines::{join, lemma_join_push};

verus! {

/// `n` empty lines.
pub open spec fn blank_lines(n: nat) -> Seq<Option<Seq<char>>> {
    Seq::new(n, |i: int| Some(Seq::<char>::empty()))
}

/// One `Text` token for each line.
pub open spec fn text_tokens(lines: Seq<Seq<char>>) -> Seq<MdView> {
    lines.map_values(|l: Seq<char>| MdView::Text(l))
}

/// A line that stands in a paragraph: it is not empty and announces no
/// heading.
pub open spec fn is_paragraph_line(line: Seq<char>) -> bool {
    line.len() > 0 && heading_level(line) is None
}

/// Empty lines give no token; after one, the next line begins a paragraph.
pub proof fn lemma_decode_blank_lines(n: nat, rest: Seq<Option<Seq<char>>>, starting: bool)
    ensures
        decode_lines(blank_lines(n) + rest, starting) == decode_lines(rest, n > 0 || starting),
    decreases n,
{
    if n == 0 {
        assert(blank_lines(0) + rest =~= rest);
    } else {
        let all = blank_lines(n) + rest;
        assert(all[0] == Some(Seq::<char>::empty()));
        assert(all.drop_first() =~= blank_lines((n - 1) as nat) + rest);
        lemma_decode_blank_lines((n - 1) as nat, rest, true);
    }
}

/// A line of text gives its tokens, then the lines after it give theirs.
pub proof fn lemma_decode_line(line: Seq<char>, rest: Seq<Option<Seq<char>>>, starting: bool)
    requires
        line.len() > 0,
    ensures
        decode_lines(seq![Some(line)] + rest, starting) == stream_of(line_tokens(line, starting))
            + decode_lines(rest, starting_after(line)),
{
    let all = seq![Some(line)] + rest;
    assert(all[0] == Some(line));
    assert(all.drop_first() =~= rest);
}

/// Two paragraph lines with one or more empty lines between them decode to
/// two paragraphs of one text each, however many empty lines stand before,
/// between and after them.
pub proof fn lemma_paragraph_splitting(
    lead: nat,
    first: Seq<char>,
    gap: nat,
    second: Seq<char>,
    trail: nat,
)
    requires
        is_paragraph_line(first),
        is_paragraph_line(second),
        gap >= 1,
    ensures
        decode_lines(
            blank_lines(lead) + seq![Some(first)] + blank_lines(gap) + seq![Some(second)]
                + blank_lines(trail),
            true,
        ) == stream_of(
            seq![
                MdView::Paragraph,
                MdView::Text(first),
                MdView::Paragraph,
                MdView::Text(second),
            ],
        ),
{
    let none = Seq::<Option<Seq<char>>>::empty();
    let r4 = blank_lines(trail) + none;
    let r3 = seq![Some(second)] + r4;
    let r2 = blank_lines(gap) + r3;
    let r1 = seq![Some(first)] + r2;
    let all = blank_lines(lead) + r1;
    assert(all =~= blank_lines(lead) + seq![Some(first)] + blank_lines(gap) + seq![Some(second)]
        + blank_lines(trail));
    lemma_decode_blank_lines(lead, r1, true);
    lemma_decode_line(first, r2, true);
    lemma_decode_blank_lines(gap, r3, false);
    lemma_decode_line(second, r4, true);
    lemma_decode_blank_lines(trail, none, false);
    assert(decode_lines(all, true) =~= stream_of(
        seq![MdView::Paragraph, MdView::Text(first), MdView::Paragraph, MdView::Text(second)],
    ));
}

/// Paragraph lines that continue a paragraph decode to one text each.
pub proof fn lemma_decode_continuation(lines: Seq<Seq<char>>)
    requires
        forall|i: int| 0 <= i < lines.len() ==> is_paragraph_line(#[trigger] lines[i]),
    ensures
        decode_lines(text_lines(lines), false) == stream_of(text_tokens(lines)),
    decreases lines.len(),
{
    if lines.len() == 0 {
        assert(decode_lines(text_lines(lines), false) =~= stream_of(text_tokens(lines)));
    } else {
        let rest = lines.drop_first();
        assert(is_paragraph_line(lines[0]));
        assert forall|i: int| 0 <= i < rest.len() implies is_paragraph_line(#[trigger] rest[i]) by {
            assert(rest[i] == lines[i + 1]);
        }
        lemma_decode_continuation(rest);
        assert(text_lines(lines) =~= seq![Some(lines[0])] + text_lines(rest));
        lemma_decode_line(lines[0], text_lines(rest), false);
        assert(stream_of(seq![MdView::Text(lines[0])]) + stream_of(text_tokens(rest)) =~= stream_of(
            text_tokens(lines),
        ));
    }
}

/// The Markdown text of a paragraph whose texts are the first `n` lines.
proof fn lemma_paragraph_span(lines: Seq<Seq<char>>, n: int)
    requires
        1 <= n <= lines.len(),
    ensures
        md_span(seq![MdView::Paragraph] + text_tokens(lines), 0, n + 1) == join(
            lines.take(n),
            ' ',
        ),
    decreases n,
{
    let tokens = seq![MdView::Paragraph] + text_tokens(lines);
    assert(tokens[0] == MdView::Paragraph);
    assert(tokens[n] == MdView::Text(lines[n - 1]));
    if n == 1 {
        assert(md_span(tokens, 0, 0) =~= Seq::<char>::empty());
        assert(md_piece(tokens, 0) =~= Seq::<char>::empty());
        assert(md_span(tokens, 0, 1) =~= Seq::<char>::empty());
        assert(md_piece(tokens, 1) == lines[0]);
        assert(lines.take(1) =~= seq![lines[0]]);
        assert(md_span(tokens, 0, 2) =~= join(lines.take(1), ' '));
    } else {
        lemma_paragraph_span(lines, n - 1);
        assert(tokens[n - 1] == MdView::Text(lines[n - 2]));
        assert(md_piece(tokens, n) == seq![' '] + lines[n - 1]);
        assert(lines.take(n) =~= lines.take(n - 1).push(lines[n - 1]));
        lemma_join_push(lines.take(n - 1), ' ', lines[n - 1]);
        assert(md_span(tokens, 0, n + 1) =~= join(lines.take(n), ' '));
    }
}

/// One or more paragraph lines with no empty line between them decode to one
/// paragraph opener and one text for each line, and the Markdown text of
/// those tokens is a single line: the lines joined by single spaces.
pub proof fn lemma_paragraph_folding(lines: Seq<Seq<char>>)
    requires
        lines.len() >= 1,
        forall|i: int| 0 <= i < lines.len() ==> is_paragraph_line(#[trigger] lines[i]),
    ensures
        decode_lines(text_lines(lines), true) == stream_of(
            seq![MdView::Paragraph] + text_tokens(lines),
        ),
        md_text(seq![MdView::Paragraph] + text_tokens(lines)) == join(lines, ' ').push('\n'),
{
    let rest = lines.drop_first();
    assert(is_paragraph_line(lines[0]));
    assert forall|i: int| 0 <= i < rest.len() implies is_paragraph_line(#[trigger] rest[i]) by {
        assert(rest[i] == lines[i + 1]);
    }
    lemma_decode_continuation(rest);
    assert(text_lines(lines) =~= seq![Some(lines[0])] + text_lines(rest));
    lemma_decode_line(lines[0], text_lines(rest), true);
    assert(stream_of(seq![MdView::Paragraph, MdView::Text(lines[0])]) + stream_of(
        text_tokens(rest),
    ) =~= stream_of(seq![MdView::Paragraph] + text_tokens(lines)));
    lemma_paragraph_span(lines, lines.len() as int);
    assert(lines.take(lines.len() as int) =~= lines);
}

/// A run of white space before something that is none is exactly what
/// trimming takes away.
pub proof fn lemma_trimmed_start(space: Seq<char>, rest: Seq<char>)
    requires
        forall|i: int| 0 <= i < space.len() ==> is_white_space(#[trigger] space[i]),
        rest.len() == 0 || !is_white_space(rest[0]),
    ensures
        white_space_run(space + rest) == space.len(),
        trimmed_start(space + rest) == rest,
    decreases space.len(),
{
    let all = space + rest;
    if space.len() == 0 {
        assert(all =~= rest);
    } else {
        assert(all[0] == space[0]);
        let tail = space.drop_first();
        assert forall|i: int| 0 <= i < tail.len() implies is_white_space(#[trigger] tail[i]) by {
            assert(tail[i] == space[i + 1]);
        }
        assert(all.drop_first() =~= tail + rest);
        lemma_trimmed_start(tail, rest);
    }
    assert(all.skip(space.len() as int) =~= rest);
}

/// `level` times the character `#`.
pub open spec fn marker(level: nat) -> Seq<char> {
    Seq::new(level, |i: int| '#')
}

/// A line of one to six `#`, white space that starts with a space, and a
/// title decodes to the heading of that level and the title as its text: the
/// marker and the white space after it are gone.
pub proof fn lemma_heading_levels(level: nat, space: Seq<char>, title: Seq<char>, starting: bool)
    requires
        1 <= level <= 6,
        space.len() >= 1,
        space[0] == ' ',
        forall|i: int| 0 <= i < space.len() ==> is_white_space(#[trigger] space[i]),
        title.len() == 0 || !is_white_space(title[0]),
    ensures
        line_tokens(marker(level) + space + title, starting) == seq![
            heading_token(level),
            MdView::Text(title),
        ],
        starting_after(marker(level) + space + title),
{
    let line = marker(level) + space + title;
    assert(line[level as int] == space[0]);
    assert forall|i: int| 0 <= i < level implies line[i] == '#' by {
        assert(line[i] == marker(level)[i]);
    }
    lemma_hashes(line, level as int);
    assert(line.skip(level as int) =~= space + title);
    lemma_trimmed_start(space, title);
}

/// A line of nothing but one to six `#` is the heading of that level with an
/// empty text.
pub proof fn lemma_bare_heading(level: nat, starting: bool)
    requires
        1 <= level <= 6,
    ensures
        line_tokens(marker(level), starting) == seq![
            heading_token(level),
            MdView::Text(Seq::empty()),
        ],
{
    let line = marker(level);
    lemma_hashes(line, level as int);
    assert(line.skip(level as int) =~= Seq::<char>::empty());
    assert(white_space_run(Seq::<char>::empty()) == 0);
    assert(trimmed_start(Seq::<char>::empty()) =~= Seq::<char>::empty());
}

/// A line that starts with seven or more `#` announces no heading: it is text
/// like any other line of a paragraph.
pub proof fn lemma_seven_hashes(line: Seq<char>, starting: bool)
    requires
        hashes(line) >= 7,
    ensures
        heading_level(line) is None,
        is_paragraph_line(line),
        line_tokens(line, starting) == if starting {
            seq![MdView::Paragraph, MdView::Text(line)]
        } else {
            seq![MdView::Text(line)]
        },
{
}

} // verus!
