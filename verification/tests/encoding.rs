use marksad::{
    html::{escape, HtmlEncoder},
    md::{supported, Block},
    Decoder, Encoder, Md,
};

fn text(s: &str) -> Md<'_> {
    Md::Text(s.into())
}

fn markdown(tokens: &[Md<'_>]) -> String {
    assert!(supported(tokens));

    let mut encoder = Encoder::new(tokens.to_vec(), String::new());

    encoder.encode_md();
    encoder.into_writer()
}

fn html(tokens: &[Md<'_>]) -> String {
    assert!(supported(tokens));

    let mut encoder = HtmlEncoder::new(tokens.to_vec(), String::new());

    encoder.encode_html();
    encoder.into_writer()
}

#[test]
fn heading_to_html() {
    let mut string = html(&[Md::Heading1, text("H1")]);

    assert_eq!(string, "<h1>H1</h1>");
    string.push('\n');
    assert_eq!(string, "<h1>H1</h1>\n");
}

#[test]
fn html_closes_what_is_open() {
    assert_eq!(html(&[]), "");
    assert_eq!(html(&[Md::Paragraph]), "<p></p>");
    assert_eq!(html(&[text("loose")]), "loose");
    assert_eq!(
        html(&[Md::Heading2, Md::Heading3, text("x"), Md::Paragraph]),
        "<h2></h2><h3>x</h3><p></p>",
    );
    assert_eq!(
        html(&[Md::Paragraph, text("a"), text("b"), Md::Heading6, text("c")]),
        "<p>a b</p><h6>c</h6>",
    );
}

#[test]
fn html_tags_balance() {
    let tokens = [
        Md::Heading1,
        text("a < b"),
        Md::Paragraph,
        Md::Paragraph,
        text("x"),
        text("</p>"),
        Md::Heading4,
    ];
    let out = html(&tokens);

    assert_eq!(
        out,
        "<h1>a &lt; b</h1><p></p><p>x &lt;/p&gt;</p><h4></h4>",
    );
    assert_eq!(out.matches('<').count(), 2 * out.matches("</").count());
    for tag in ["p", "h1", "h2", "h3", "h4", "h5", "h6"] {
        let open = format!("<{tag}>");
        let close = format!("</{tag}>");

        assert_eq!(out.matches(&open).count(), out.matches(&close).count());
    }
}

#[test]
fn html_text_is_escaped() {
    assert_eq!(escape("a & b"), "a &amp; b");
    assert_eq!(escape("<b>&amp;</b>"), "&lt;b&gt;&amp;amp;&lt;/b&gt;");
    assert_eq!(escape("plain \"text\""), "plain \"text\"");
    assert_eq!(escape(""), "");
    assert_eq!(
        html(&[Md::Paragraph, text("1 < 2 && 3 > 2")]),
        "<p>1 &lt; 2 &amp;&amp; 3 &gt; 2</p>",
    );
}

#[test]
fn html_encoder_appends_and_writes_once() {
    let mut encoder = HtmlEncoder::new(vec![Md::Paragraph, text("x")], "<!-- -->".to_string());

    encoder.encode_html();
    assert_eq!(encoder.writer(), "<!-- --><p>x</p>");
    encoder.encode_html();
    assert_eq!(encoder.writer(), "<!-- --><p>x</p>");
}

#[test]
fn markdown_of_blocks() {
    assert_eq!(markdown(&[]), "\n");
    assert_eq!(markdown(&[Md::Heading1, text("H1")]), "# H1\n");
    assert_eq!(markdown(&[Md::Paragraph, text("p")]), "p\n");
    assert_eq!(
        markdown(&[
            Md::Heading1,
            text("1"),
            Md::Heading2,
            text("2"),
            Md::Heading3,
            text("3"),
            Md::Heading4,
            text("4"),
            Md::Heading5,
            text("5"),
            Md::Heading6,
            text("6"),
            Md::Paragraph,
            text("p"),
        ]),
        "# 1\n\n## 2\n\n### 3\n\n#### 4\n\n##### 5\n\n###### 6\n\np\n",
    );
}

#[test]
fn markdown_joins_texts_with_spaces() {
    assert_eq!(
        markdown(&[Md::Paragraph, text("one"), text("two"), text("three")]),
        "one two three\n",
    );
    assert_eq!(
        markdown(&[text("loose"), Md::Paragraph, text("a"), Md::Heading2]),
        "loose\n\na\n\n## \n",
    );
}

#[test]
fn markdown_encoder_appends() {
    let mut encoder = Encoder::new(vec![Md::Heading2, text("x")], "> ".to_string());

    encoder.encode_md();
    assert_eq!(encoder.writer(), "> ## x\n");
    encoder.encode_md();
    assert_eq!(encoder.into_writer(), "> ## x\n\n");
}

#[test]
fn other_tokens_are_not_supported() {
    assert!(supported(&[]));
    assert!(supported(&[Md::Paragraph, text("x"), Md::Heading6]));
    assert!(!supported(&[Md::Paragraph, Md::LineBreak]));
    assert!(!supported(&[Md::Bold(true), text("x"), Md::Bold(false)]));
    assert!(!Md::Code("x".into()).is_supported());
    assert!(Md::Heading3.is_supported());
    assert_eq!(Md::Heading3.block(), Some(Block::Heading3));
    assert_eq!(Md::Paragraph.block(), Some(Block::Paragraph));
    assert_eq!(text("x").block(), None);
    assert_eq!(text("x").text(), Some("x"));
    assert_eq!(Md::Link("x".into()).text(), None);
}

#[test]
fn tags_and_prefixes() {
    assert_eq!(Block::Paragraph.md_prefix(), "");
    assert_eq!(Block::Heading1.md_prefix(), "# ");
    assert_eq!(Block::Heading6.md_prefix(), "###### ");
    assert_eq!(Block::Paragraph.open_tag(), "<p>");
    assert_eq!(Block::Paragraph.close_tag(), "</p>");
    assert_eq!(Block::Heading5.open_tag(), "<h5>");
    assert_eq!(Block::Heading5.close_tag(), "</h5>");
}

#[test]
fn decoding_markdown_of_blocks_gives_them_back() {
    for input in [
        "",
        "# Title\nbody\n\n\n## Sub\n####### seven\n",
        "#\n##\n\n#no heading\n\n# # nested\n",
        "  indented\n\n###  spaced  \n",
    ] {
        let tokens: Vec<Md<'_>> = Decoder::from_str(input).collect().unwrap();
        let encoded = markdown(&tokens);
        let again: Vec<Md<'_>> = Decoder::from_str(&encoded).collect().unwrap();

        assert_eq!(again, tokens);
    }
}

#[test]
fn folded_paragraph_decodes_to_one_text() {
    let tokens: Vec<Md<'_>> = Decoder::from_str("a\nb").collect().unwrap();
    let encoded = markdown(&tokens);

    assert_eq!(encoded, "a b\n");

    let again: Vec<Md<'_>> = Decoder::from_str(&encoded).collect().unwrap();

    assert_eq!(again, [Md::Paragraph, text("a b")]);
    assert_eq!(markdown(&again), encoded);
}
