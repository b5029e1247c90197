use std::borrow::Cow;

use marksad::{
    decode::{Error, Fault},
    decoder::decode_line,
    line_reader::LineReader,
    Decoder, Md,
};

fn decode(text: &str) -> Vec<Md<'_>> {
    Decoder::from_str(text).collect().unwrap()
}

fn text(s: &str) -> Md<'_> {
    Md::Text(s.into())
}

#[test]
fn two_paragraphs() {
    assert_eq!(
        decode("Paragraph 1\n\nParagraph 2\n"),
        [
            Md::Paragraph,
            text("Paragraph 1"),
            Md::Paragraph,
            text("Paragraph 2"),
        ],
    );
}

#[test]
fn headings_then_paragraph() {
    assert_eq!(
        decode("# Heading 1\n## Heading 2\n\nSome paragraph\n"),
        [
            Md::Heading1,
            text("Heading 1"),
            Md::Heading2,
            text("Heading 2"),
            Md::Paragraph,
            text("Some paragraph"),
        ],
    );
}

#[test]
fn blank_runs_of_any_length_split_paragraphs() {
    let expected = [Md::Paragraph, text("a"), Md::Paragraph, text("b")];

    for gap in 2..8 {
        for lead in 0..4 {
            for trail in 0..4 {
                let input = format!(
                    "{}a{}b{}",
                    "\n".repeat(lead),
                    "\n".repeat(gap),
                    "\n".repeat(trail),
                );

                assert_eq!(decode(&input), expected);
            }
        }
    }
}

#[test]
fn lines_of_one_paragraph_are_texts() {
    assert_eq!(
        decode("one\ntwo\nthree"),
        [Md::Paragraph, text("one"), text("two"), text("three")],
    );
}

#[test]
fn every_heading_level() {
    assert_eq!(
        decode("# H1\n## H2\n### H3\n#### H4\n##### H5\n###### H6\n"),
        [
            Md::Heading1,
            text("H1"),
            Md::Heading2,
            text("H2"),
            Md::Heading3,
            text("H3"),
            Md::Heading4,
            text("H4"),
            Md::Heading5,
            text("H5"),
            Md::Heading6,
            text("H6"),
        ],
    );
}

#[test]
fn seven_hashes_are_text() {
    assert_eq!(
        decode("####### H7\n"),
        [Md::Paragraph, text("####### H7")],
    );
    assert_eq!(decode("#######"), [Md::Paragraph, text("#######")]);
    assert_eq!(
        decode("a\n########"),
        [Md::Paragraph, text("a"), text("########")],
    );
}

#[test]
fn marker_needs_space_or_end_of_line() {
    assert_eq!(decode("#Heading"), [Md::Paragraph, text("#Heading")]);
    assert_eq!(decode("##\tHeading"), [Md::Paragraph, text("##\tHeading")]);
    assert_eq!(decode("###"), [Md::Heading3, text("")]);
    assert_eq!(decode("###### "), [Md::Heading6, text("")]);
}

#[test]
fn white_space_after_marker_is_stripped() {
    assert_eq!(decode("#    Title"), [Md::Heading1, text("Title")]);
    assert_eq!(decode("## \t Title  "), [Md::Heading2, text("Title  ")]);
    assert_eq!(
        decode("# \u{a0}\u{2003}\u{3000}Title"),
        [Md::Heading1, text("Title")],
    );
    assert_eq!(decode("# \u{200b}Title"), [Md::Heading1, text("\u{200b}Title")]);
}

#[test]
fn line_after_heading_starts_paragraph() {
    assert_eq!(
        decode("# Title\nbody\nmore"),
        [
            Md::Heading1,
            text("Title"),
            Md::Paragraph,
            text("body"),
            text("more"),
        ],
    );
}

#[test]
fn heading_inside_paragraph() {
    assert_eq!(
        decode("body\n# Title"),
        [Md::Paragraph, text("body"), Md::Heading1, text("Title")],
    );
}

#[test]
fn empty_input_has_no_tokens() {
    assert_eq!(decode(""), []);
    assert_eq!(decode("\n\n\n"), []);
}

#[test]
fn text_beyond_ascii() {
    assert_eq!(
        decode("## Überschrift\n\nGrüße, 世界\n"),
        [
            Md::Heading2,
            text("Überschrift"),
            Md::Paragraph,
            text("Grüße, 世界"),
        ],
    );
}

#[test]
fn tokens_borrow_from_the_input() {
    let input = String::from("## Title\nbody");
    let tokens: Vec<Md<'_>> = Decoder::from_str(&input).collect().unwrap();

    for token in &tokens {
        if let Md::Text(content) = token {
            assert!(matches!(content, Cow::Borrowed(_)));
        }
    }
    assert_eq!(tokens.len(), 4);
}

#[test]
fn tokens_come_one_by_one() {
    let mut decoder = Decoder::from_str("# A\nb");

    assert!(matches!(decoder.next(), Some(Ok(Md::Heading1))));
    assert!(matches!(decoder.next(), Some(Ok(Md::Text(t))) if t == "A"));
    assert!(matches!(decoder.next(), Some(Ok(Md::Paragraph))));
    assert!(matches!(decoder.next(), Some(Ok(Md::Text(t))) if t == "b"));
    assert!(decoder.next().is_none());
    assert!(decoder.next().is_none());
}

#[test]
fn invalid_utf8_is_a_fault() {
    let result = Decoder::from_slice(b"fine\n\xff\xfe\nnever").collect();

    assert!(matches!(result, Err(Error::Io(Fault::InvalidData))));
}

#[test]
fn fault_ends_the_decoding() {
    let mut decoder = Decoder::from_slice(b"fine\n\xc3\nnever");

    assert!(matches!(decoder.next(), Some(Ok(Md::Paragraph))));
    assert!(matches!(decoder.next(), Some(Ok(Md::Text(t))) if t == "fine"));
    assert!(matches!(
        decoder.next(),
        Some(Err(Error::Io(Fault::InvalidData)))
    ));
    assert!(decoder.next().is_none());
}

#[test]
fn truncated_and_overlong_sequences_are_faults() {
    for bytes in [&b"\xe4\xb8"[..], b"\xc0\xaf", b"\xed\xa0\x80", b"\x80"] {
        let result = Decoder::from_slice(bytes).collect();

        assert!(matches!(result, Err(Error::Io(Fault::InvalidData))));
    }
}

#[test]
fn line_reader_splits_at_newlines() {
    let mut reader = LineReader::from_slice(b"a\n\nb c\n");

    assert!(matches!(reader.next(), Some(Ok(line)) if line == "a"));
    assert!(matches!(reader.next(), Some(Ok(line)) if line == ""));
    assert!(matches!(reader.next(), Some(Ok(line)) if line == "b c"));
    assert!(matches!(reader.next(), Some(Ok(line)) if line == ""));
    assert!(reader.next().is_none());
    assert!(reader.next().is_none());
}

#[test]
fn line_reader_of_nothing_has_one_empty_line() {
    let mut reader = LineReader::from_slice(b"");

    assert!(matches!(reader.next(), Some(Ok(line)) if line == ""));
    assert!(reader.next().is_none());
}

#[test]
fn line_reader_reports_invalid_line_and_goes_on() {
    let mut reader = LineReader::from_slice(b"\xff\nok");

    assert!(matches!(
        reader.next(),
        Some(Err(Error::Io(Fault::InvalidData)))
    ));
    assert!(matches!(reader.next(), Some(Ok(line)) if line == "ok"));
    assert!(reader.next().is_none());
}

#[test]
fn one_line_at_a_time() {
    let heading = decode_line(Cow::Owned("###  Owned".to_string()), false);

    assert_eq!(heading.first, Md::Heading3);
    assert_eq!(heading.queued, Some(text("Owned")));
    assert!(matches!(heading.queued, Some(Md::Text(Cow::Owned(_)))));
    assert!(heading.paragraph_starting);

    let opening = decode_line(Cow::Borrowed("plain"), true);

    assert_eq!(opening.first, Md::Paragraph);
    assert_eq!(opening.queued, Some(text("plain")));
    assert!(matches!(opening.queued, Some(Md::Text(Cow::Borrowed(_)))));
    assert!(!opening.paragraph_starting);

    let following = decode_line(Cow::Borrowed("plain"), false);

    assert_eq!(following.first, text("plain"));
    assert_eq!(following.queued, None);
    assert!(!following.paragraph_starting);
}

#[test]
fn borrowed_and_owned_tokens_are_equal() {
    let borrowed = Md::Text(Cow::Borrowed("same"));
    let owned = Md::Text(Cow::Owned("same".to_string()));

    assert_eq!(borrowed, owned);
    assert_eq!(borrowed.clone(), borrowed);
    assert_ne!(borrowed, Md::Text("other".into()));
    assert_eq!(Md::ImageNum("alt".into(), 3).clone(), Md::ImageNum("alt".into(), 3));
}
