use marksad::{decode::Error, Decoder, Encoder, Md};

const PARAGRAPHS: &str = "Paragraph 1\n\nParagraph 2\n";
const PARAGRAPHS_LEADING_NEWLINE: &str = "\nParagraph 1\n\nParagraph 2\n";
const PARAGRAPHS_LEADING_NEWLINES: &str = "\n\n\nParagraph 1\n\n\n\nParagraph 2\n";
const HEADINGS: &str = "# Heading 1\n## Heading 2\n\nSome paragraph\n\n### Heading 3\n#### Heading 4\n##### Heading 5\n###### Heading 6\n";
const HEADINGS_LEADING_NEWLINE: &str = "\n# Heading 1\n## Heading 2\n\nSome paragraph\n\n### Heading 3\n#### Heading 4\n##### Heading 5\n###### Heading 6\n";
const HEADINGS_LEADING_NEWLINES: &str = "\n\n\n# Heading 1\n\n## Heading 2\n\n\nSome paragraph\n### Heading 3\n\n#### Heading 4\n\n##### Heading 5\n\n###### Heading 6\n";
const ALL_HEADINGS: &str = "# Heading 1\n\n## Heading 2\n\nSome paragraph\n\n### Heading 3\n\n#### Heading 4\n\n##### Heading 5\n\n###### Heading 6\n";
const MULTILINE: &str = "This is a multi-line paragraph. Good talk.\n\nNew paragraph, single line\n\nAnother multi-line paragraph\n\nAnd another.\n";
const MULTILINE_PARAGRAPHS: &str = "This is a multi-line\nparagraph.\nGood talk.\n\nNew paragraph, single line\n\nAnother\nmulti-line\nparagraph\n\nAnd\nanother.\n";

fn test_reader_string(text: &str, f: impl Fn(&[Md<'_>])) {
    let mds: Result<Vec<_>, Error<'_>> = Decoder::from_slice(text.as_bytes()).collect();
    let mds = mds.unwrap();

    f(mds.as_slice());

    let mds: Result<Vec<_>, Error<'_>> = Decoder::from_str(text).collect();
    let mds = mds.unwrap();

    f(mds.as_slice());
}

fn encode(mds: &[Md<'_>]) -> String {
    let mut encoder = Encoder::new(mds.to_vec(), String::new());

    encoder.encode_md();
    encoder.into_writer()
}

#[test]
fn paragraphs() {
    for text in [
        PARAGRAPHS,
        PARAGRAPHS_LEADING_NEWLINE,
        PARAGRAPHS_LEADING_NEWLINES,
    ] {
        test_reader_string(text, |mds| {
            let expected = [
                Md::Paragraph,
                Md::Text("Paragraph 1".into()),
                Md::Paragraph,
                Md::Text("Paragraph 2".into()),
            ];

            assert_eq!(mds, expected);
        });
    }
}

#[test]
fn headings() {
    for text in [
        HEADINGS,
        HEADINGS_LEADING_NEWLINE,
        HEADINGS_LEADING_NEWLINES,
    ] {
        test_reader_string(text, |mds| {
            let expected = [
                Md::Heading1,
                Md::Text("Heading 1".into()),
                Md::Heading2,
                Md::Text("Heading 2".into()),
                Md::Paragraph,
                Md::Text("Some paragraph".into()),
                Md::Heading3,
                Md::Text("Heading 3".into()),
                Md::Heading4,
                Md::Text("Heading 4".into()),
                Md::Heading5,
                Md::Text("Heading 5".into()),
                Md::Heading6,
                Md::Text("Heading 6".into()),
            ];

            assert_eq!(mds, expected);
        });
    }
}

#[test]
fn multiline_paragraphs() {
    test_reader_string(MULTILINE_PARAGRAPHS, |mds| {
        let expected = [
            Md::Paragraph,
            Md::Text("This is a multi-line".into()),
            Md::Text("paragraph.".into()),
            Md::Text("Good talk.".into()),
            Md::Paragraph,
            Md::Text("New paragraph, single line".into()),
            Md::Paragraph,
            Md::Text("Another".into()),
            Md::Text("multi-line".into()),
            Md::Text("paragraph".into()),
            Md::Paragraph,
            Md::Text("And".into()),
            Md::Text("another.".into()),
        ];

        assert_eq!(mds, expected);
    });
}

#[test]
fn roundtrip() {
    for text in [MULTILINE_PARAGRAPHS, MULTILINE] {
        test_reader_string(text, |mds| {
            assert_eq!(encode(mds), MULTILINE);
        });
    }

    for text in [
        PARAGRAPHS,
        PARAGRAPHS_LEADING_NEWLINE,
        PARAGRAPHS_LEADING_NEWLINES,
    ] {
        test_reader_string(text, |mds| {
            assert_eq!(encode(mds), PARAGRAPHS);
        });
    }

    for text in [
        HEADINGS,
        HEADINGS_LEADING_NEWLINE,
        HEADINGS_LEADING_NEWLINES,
    ] {
        test_reader_string(text, |mds| {
            assert_eq!(encode(mds), ALL_HEADINGS);
        });
    }
}
