use multimesh::item_reader::{ItemReader, ItemReaderError};

#[test]
fn item_reader() {
    let source = " abc   xyz  -1\n\r\t \n  abc xyz";
    let mut reader = ItemReader::new(source);

    assert_eq!(reader.next(), Some("abc".to_string()));
    assert_eq!(reader.next(), Some("xyz".to_string()));
    assert_eq!(reader.next(), Some("-1".to_string()));
    assert_eq!(reader.next(), Some("abc".to_string()));
    assert_eq!(reader.next(), Some("xyz".to_string()));
    assert_eq!(reader.next(), None);
}

#[test]
fn comment_lines_are_skipped() {
    let mut reader = ItemReader::new("# a b\nc # d\n\n#\ne");
    assert_eq!(reader.next(), Some("c".to_string()));
    assert_eq!(reader.next(), Some("#".to_string()));
    assert_eq!(reader.next(), Some("d".to_string()));
    assert_eq!(reader.next(), Some("e".to_string()));
    assert_eq!(reader.next(), None);
}

#[test]
fn unicode_white_space_separates_items() {
    let mut reader = ItemReader::new("a\u{3000}b\u{a0}\u{2003}c\r\nd");
    assert_eq!(reader.next(), Some("a".to_string()));
    assert_eq!(reader.next(), Some("b".to_string()));
    assert_eq!(reader.next(), Some("c".to_string()));
    assert_eq!(reader.next(), Some("d".to_string()));
    assert_eq!(reader.next(), None);
}

#[test]
fn next_until_eol_stops_at_line_end() {
    let mut reader = ItemReader::new("a b\nc");
    assert_eq!(reader.next(), Some("a".to_string()));
    assert_eq!(reader.next_until_eol(), Some("b".to_string()));
    assert_eq!(reader.next_until_eol(), None);
    assert_eq!(reader.next(), Some("c".to_string()));
}

#[test]
fn next_result_at_end_is_eof() {
    let mut reader = ItemReader::new("   \n");
    assert!(matches!(reader.next_result(), Err(ItemReaderError::UnexpectedEof)));
}
