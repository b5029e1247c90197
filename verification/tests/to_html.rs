use marksad::{html::HtmlEncoder, Md};

#[test]
fn markdown_to_html() {
    let md = [
        Md::Heading1,
        Md::Text("Heading 1".into()),
        Md::Heading2,
        Md::Text("Heading 2".into()),
        Md::Paragraph,
        Md::Text("Some paragraph".into()),
        Md::Heading3,
        Md::Text("Heading 3".into()),
        Md::Heading4,
        Md::Text("Heading 4".into()),
        Md::Heading5,
        Md::Text("Heading 5".into()),
        Md::Heading6,
        Md::Text("Heading 6".into()),
        Md::Paragraph,
        Md::Text("This is a multi-line".into()),
        Md::Text("paragraph.".into()),
        Md::Text("Good talk.".into()),
        Md::Paragraph,
        Md::Text("New paragraph, single line".into()),
        Md::Paragraph,
        Md::Text("Another".into()),
        Md::Text("multi-line".into()),
        Md::Text("paragraph".into()),
        Md::Paragraph,
        Md::Text("And".into()),
        Md::Text("another.".into()),
    ];
    let mut encoder = HtmlEncoder::new(md.to_vec(), String::new());

    encoder.encode_html();

    let mut string = encoder.into_writer();

    string.push('\n');

    let expected = "<h1>Heading 1</h1><h2>Heading 2</h2><p>Some paragraph</p>\
                    <h3>Heading 3</h3><h4>Heading 4</h4><h5>Heading 5</h5>\
                    <h6>Heading 6</h6><p>This is a multi-line paragraph. Good talk.</p>\
                    <p>New paragraph, single line</p><p>Another multi-line paragraph</p>\
                    <p>And another.</p>\n";

    assert_eq!(string, expected);
}
