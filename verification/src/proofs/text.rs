//! Lines of text and lines of its UTF-8 bytes

use vstd::prelude::*;
use vstd::utf8::{
    decode_utf8, decode_utf8_encode_utf8, encode_scalar, encode_utf8, encode_utf8_decode_utf8,
    encode_utf8_valid_utf8, valid_utf8,
};

use crate::decoder::{decode, decode_lines, stream_of};
use crate::line_reader::{byte_lines, first_index, line_text, split, text_lines};
use crate::md::MdView;
use crate::proofs::decoding::{
    blank_lines, is_paragraph_line, lemma_paragraph_folding, lemma_paragraph_splitting,
    text_tokens,
};
use crate::proofs::lines::{
    all_free_of, free_of, join, lemma_first_index_is_first, lemma_split_first, lemma_split_free,
    lemma_split_join, lemma_split_whole,
};

verus! {

/// A byte that has one of its two highest bits set is no newline.
proof fn lemma_high_bytes(b: u8)
    by (bit_vector)
    ensures
        0x80u8 | b != 10u8,
        0xC0u8 | b != 10u8,
        0xE0u8 | b != 10u8,
        0xF0u8 | b != 10u8,
{
}

/// The single byte of a scalar below 128 is the scalar itself.
proof fn lemma_low_byte(s: u32)
    by (bit_vector)
    requires
        s <= 0x7F,
    ensures
        (s & 0x7F) as u8 == s,
{
}

/// The newline character is encoded as the newline byte, and the encoding of
/// no other character holds that byte.
pub proof fn lemma_encode_newline(c: char)
    ensures
        c == '\n' ==> encode_scalar(c as u32) == seq![10u8],
        c != '\n' ==> free_of(encode_scalar(c as u32), 10u8),
{
    let s = c as u32;
    let bytes = encode_scalar(s);
    if s <= 0x7F {
        lemma_low_byte(s);
        assert(bytes =~= seq![s as u8]);
    } else {
        assert forall|i: int| 0 <= i < bytes.len() implies bytes[i] != 10u8 by {
            lemma_high_bytes(((s >> 6) & 0x1F) as u8);
            lemma_high_bytes(((s >> 12) & 0x0F) as u8);
            lemma_high_bytes(((s >> 18) & 0x7) as u8);
            lemma_high_bytes((s & 0x3F) as u8);
            lemma_high_bytes(((s >> 6) & 0x3F) as u8);
            lemma_high_bytes(((s >> 12) & 0x3F) as u8);
        }
    }
}

/// A newline alone is encoded as the newline byte alone.
pub proof fn lemma_encode_newline_alone()
    ensures
        encode_utf8(seq!['\n']) == seq![10u8],
{
    let s = seq!['\n'];
    let none = Seq::<char>::empty();
    assert(s[0] == '\n');
    assert(s.drop_first() =~= none);
    assert(encode_utf8(none) =~= Seq::<u8>::empty());
    lemma_encode_newline('\n');
    assert(encode_utf8(s) == encode_scalar(s[0] as u32) + encode_utf8(s.drop_first()));
    assert(encode_utf8(s) =~= seq![10u8]);
}

/// The encoding of two texts in a row is the encoding of the first, then
/// that of the second.
pub proof fn lemma_encode_concat(a: Seq<char>, b: Seq<char>)
    ensures
        encode_utf8(a + b) == encode_utf8(a) + encode_utf8(b),
    decreases a.len(),
{
    if a.len() == 0 {
        assert(a + b =~= b);
        assert(encode_utf8(a) + encode_utf8(b) =~= encode_utf8(b));
    } else {
        assert((a + b)[0] == a[0]);
        assert((a + b).drop_first() =~= a.drop_first() + b);
        lemma_encode_concat(a.drop_first(), b);
        assert(encode_utf8(a + b) =~= encode_utf8(a) + encode_utf8(b));
    }
}

/// The encoding of a text without newline holds no newline byte.
pub proof fn lemma_encode_free(text: Seq<char>)
    requires
        free_of(text, '\n'),
    ensures
        free_of(encode_utf8(text), 10u8),
    decreases text.len(),
{
    if text.len() > 0 {
        let rest = text.drop_first();
        assert forall|i: int| 0 <= i < rest.len() implies rest[i] != '\n' by {
            assert(rest[i] == text[i + 1]);
        }
        lemma_encode_free(rest);
        lemma_encode_newline(text[0]);
        let head = encode_scalar(text[0] as u32);
        let tail = encode_utf8(rest);
        assert forall|i: int| 0 <= i < (head + tail).len() implies (head + tail)[i] != 10u8 by {
            if i < head.len() {
                assert((head + tail)[i] == head[i]);
            } else {
                assert((head + tail)[i] == tail[i - head.len()]);
            }
        }
    }
}

/// The text of valid UTF-8 without newline byte holds no newline.
pub proof fn lemma_decode_free(bytes: Seq<u8>)
    requires
        valid_utf8(bytes),
        free_of(bytes, 10u8),
    ensures
        free_of(decode_utf8(bytes), '\n'),
{
    let text = decode_utf8(bytes);
    decode_utf8_encode_utf8(bytes);
    assert forall|i: int| 0 <= i < text.len() implies text[i] != '\n' by {
        if text[i] == '\n' {
            let a = text.take(i);
            let b = text.skip(i + 1);
            assert(text =~= a + seq!['\n'] + b);
            lemma_encode_concat(a + seq!['\n'], b);
            lemma_encode_concat(a, seq!['\n']);
            lemma_encode_newline_alone();
            let at = encode_utf8(a).len() as int;
            assert(bytes[at] == 10u8);
        }
    }
}

/// The lines of the UTF-8 bytes of a text are the lines of the text.
pub proof fn lemma_encoded_lines(text: Seq<char>)
    ensures
        byte_lines(encode_utf8(text)) == text_lines(split(text, '\n')),
    decreases text.len(),
{
    let k = first_index(text, '\n');
    lemma_first_index_is_first(text, '\n');
    let head = text.take(k);
    lemma_encode_free(head);
    encode_utf8_valid_utf8(head);
    encode_utf8_decode_utf8(head);
    assert(line_text(encode_utf8(head)) == Some(head));
    if k < text.len() {
        let tail = text.skip(k + 1);
        assert(text =~= head + seq!['\n'] + tail);
        lemma_encode_concat(head + seq!['\n'], tail);
        lemma_encode_concat(head, seq!['\n']);
        lemma_encode_newline_alone();
        lemma_split_first(encode_utf8(head), 10u8, encode_utf8(tail));
        lemma_encoded_lines(tail);
        let pieces = seq![encode_utf8(head)] + split(encode_utf8(tail), 10u8);
        assert(encode_utf8(text) == encode_utf8(head) + seq![10u8] + encode_utf8(tail));
        assert(split(encode_utf8(text), 10u8) == pieces);
        assert(split(text, '\n') == seq![head] + split(tail, '\n'));
        assert(byte_lines(encode_utf8(text)) =~= seq![Some(head)] + byte_lines(encode_utf8(tail)));
        assert(text_lines(split(text, '\n')) =~= seq![Some(head)] + text_lines(split(tail, '\n')));
    } else {
        assert(head =~= text);
        lemma_split_whole(encode_utf8(text), 10u8);
        assert(byte_lines(encode_utf8(text)) =~= text_lines(split(text, '\n')));
    }
}

/// Every line of a byte buffer that is text holds no newline.
pub proof fn lemma_byte_lines_free(bytes: Seq<u8>)
    ensures
        forall|i: int|
            0 <= i < byte_lines(bytes).len() ==> (#[trigger] byte_lines(bytes)[i] matches Some(line)
                ==> free_of(line, '\n')),
{
    let pieces = split(bytes, 10u8);
    lemma_split_free(bytes, 10u8);
    assert forall|i: int| 0 <= i < byte_lines(bytes).len() implies (#[trigger] byte_lines(
        bytes,
    )[i] matches Some(line) ==> free_of(line, '\n')) by {
        assert(free_of(pieces[i], 10u8));
        if valid_utf8(pieces[i]) {
            lemma_decode_free(pieces[i]);
        }
    }
}

/// A byte buffer made of lines without newline byte, joined by newline
/// bytes, decodes as those lines do.
pub proof fn lemma_decode_joined_bytes(lines: Seq<Seq<u8>>)
    requires
        lines.len() >= 1,
        all_free_of(lines, 10u8),
    ensures
        byte_lines(join(lines, 10u8)) == lines.map_values(|l: Seq<u8>| line_text(l)),
        decode(join(lines, 10u8)) == decode_lines(
            lines.map_values(|l: Seq<u8>| line_text(l)),
            true,
        ),
{
    lemma_split_join(lines, 10u8);
}

/// The UTF-8 bytes of a text made of lines without newline, joined by
/// newlines, decode as those lines do.
pub proof fn lemma_decode_joined_text(lines: Seq<Seq<char>>)
    requires
        lines.len() >= 1,
        all_free_of(lines, '\n'),
    ensures
        decode(encode_utf8(join(lines, '\n'))) == decode_lines(text_lines(lines), true),
{
    lemma_encoded_lines(join(lines, '\n'));
    lemma_split_join(lines, '\n');
}

/// `n` empty lines of text.
pub open spec fn blank_texts(n: nat) -> Seq<Seq<char>> {
    Seq::new(n, |i: int| Seq::<char>::empty())
}

/// A text of two paragraph lines with one or more empty lines between them
/// decodes to two paragraphs of one text each, however many empty lines
/// stand before, between and after the two.
pub proof fn lemma_paragraphs_in_text(
    lead: nat,
    first: Seq<char>,
    gap: nat,
    second: Seq<char>,
    trail: nat,
)
    requires
        is_paragraph_line(first),
        is_paragraph_line(second),
        free_of(first, '\n'),
        free_of(second, '\n'),
        gap >= 1,
    ensures
        decode(
            encode_utf8(
                join(
                    blank_texts(lead) + seq![first] + blank_texts(gap) + seq![second]
                        + blank_texts(trail),
                    '\n',
                ),
            ),
        ) == stream_of(
            seq![
                MdView::Paragraph,
                MdView::Text(first),
                MdView::Paragraph,
                MdView::Text(second),
            ],
        ),
{
    let lines = blank_texts(lead) + seq![first] + blank_texts(gap) + seq![second] + blank_texts(
        trail,
    );
    assert forall|i: int| 0 <= i < lines.len() implies free_of(#[trigger] lines[i], '\n') by {
        if i == lead {
            assert(lines[i] == first);
        } else if i == lead + 1 + gap {
            assert(lines[i] == second);
        } else {
            assert(lines[i] =~= Seq::<char>::empty());
        }
    }
    lemma_decode_joined_text(lines);
    assert(text_lines(lines) =~= blank_lines(lead) + seq![Some(first)] + blank_lines(gap) + seq![
        Some(second),
    ] + blank_lines(trail));
    lemma_paragraph_splitting(lead, first, gap, second, trail);
}

/// A text of one or more paragraph lines with no empty line between them
/// decodes to one paragraph opener and one text for each line.
pub proof fn lemma_folding_in_text(lines: Seq<Seq<char>>)
    requires
        lines.len() >= 1,
        all_free_of(lines, '\n'),
        forall|i: int| 0 <= i < lines.len() ==> is_paragraph_line(#[trigger] lines[i]),
    ensures
        decode(encode_utf8(join(lines, '\n'))) == stream_of(
            seq![MdView::Paragraph] + text_tokens(lines),
        ),
{
    lemma_decode_joined_text(lines);
    lemma_paragraph_folding(lines);
}

} // verus!
