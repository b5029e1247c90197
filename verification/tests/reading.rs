use marksad::{
    decode::{Error, Fault},
    reader::{from_slice, from_str},
    Md,
};

#[test]
fn every_line_is_a_paragraph() {
    let mut reader = from_str("# one\ntwo\n\n\nthree\n");

    assert!(matches!(reader.next(), Some(Ok(Md::Paragraph))));
    assert!(matches!(reader.next(), Some(Ok(Md::Text(t))) if t == "# one"));
    assert!(matches!(reader.next(), Some(Ok(Md::Paragraph))));
    assert!(matches!(reader.next(), Some(Ok(Md::Text(t))) if t == "two"));
    assert!(matches!(reader.next(), Some(Ok(Md::Paragraph))));
    assert!(matches!(reader.next(), Some(Ok(Md::Text(t))) if t == "three"));
    assert!(reader.next().is_none());
    assert!(reader.next().is_none());
}

#[test]
fn reader_goes_on_after_a_fault() {
    let mut reader = from_slice(b"a\n\xff\nb");

    assert!(matches!(reader.next(), Some(Ok(Md::Paragraph))));
    assert!(matches!(reader.next(), Some(Ok(Md::Text(t))) if t == "a"));
    assert!(matches!(
        reader.next(),
        Some(Err(Error::Io(Fault::InvalidData)))
    ));
    assert!(matches!(reader.next(), Some(Ok(Md::Paragraph))));
    assert!(matches!(reader.next(), Some(Ok(Md::Text(t))) if t == "b"));
    assert!(reader.next().is_none());
}

#[test]
fn reader_of_nothing() {
    assert!(from_str("").next().is_none());
    assert!(from_slice(b"\n\n").next().is_none());
}

#[test]
fn one_line_read() {
    let tokens = marksad::reader::read_line("## kept".into());

    assert_eq!(tokens.first, Md::Paragraph);
    assert_eq!(tokens.queued, Some(Md::Text("## kept".into())));
    assert!(!tokens.paragraph_starting);
}
