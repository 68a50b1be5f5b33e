use dip_core::info::DefaultEOL;
use dip_core::text_buffer::TextBuffer;

#[test]
fn repeated_inserts_everywhere() {
    let mut buffer = TextBuffer::new(DefaultEOL::LF);
    buffer.insert(0, "AAA").unwrap();
    assert_eq!(buffer.to_string(), "AAA");
    buffer.insert(0, "BBB").unwrap();
    assert_eq!(buffer.to_string(), "BBBAAA");
    buffer.insert(6, "CCC").unwrap();
    assert_eq!(buffer.to_string(), "BBBAAACCC");
    buffer.insert(5, "DDD").unwrap();
    assert_eq!(buffer.to_string(), "BBBAADDDACCC");
}

#[test]
fn insert_then_delete_middle() {
    let mut buffer = TextBuffer::from_string("This is a document with some text.", DefaultEOL::LF);
    buffer.insert(34, "This is some more text to insert at offset 34.").unwrap();
    assert_eq!(
        buffer.to_string(),
        "This is a document with some text.This is some more text to insert at offset 34."
    );
    buffer.delete(42, 5).unwrap();
    assert_eq!(
        buffer.to_string(),
        "This is a document with some text.This is more text to insert at offset 34."
    );
}

#[test]
fn line_count_and_content() {
    let buffer = TextBuffer::from_string("line1\nline2\nline3", DefaultEOL::LF);
    assert_eq!(buffer.line_count(), 3);
    assert_eq!(buffer.line_content(1), "line2");
    assert_eq!(buffer.line_content(0), "line1");
    assert_eq!(buffer.line_content(2), "line3");
}

#[test]
fn crlf_joined_across_insert() {
    let mut buffer = TextBuffer::from_string("a\r", DefaultEOL::LF);
    buffer.insert(2, "\nb").unwrap();
    assert_eq!(buffer.to_string(), "a\r\nb");
    assert_eq!(buffer.line_count(), 2);
}

#[test]
fn delete_whole_document_leaves_empty_tree() {
    let mut buffer = TextBuffer::from_string("", DefaultEOL::LF);
    buffer.insert(0, "x").unwrap();
    buffer.delete(0, 1).unwrap();
    assert_eq!(buffer.to_string(), "");
    assert_eq!(buffer.length(), 0);
    assert_eq!(buffer.piece_count(), 0);
    // The changed buffer is append-only and still holds the text once
    // inserted.
    assert_eq!(buffer.changed_to_string(), "x");
}

#[test]
fn middle_insert_splits_into_three_pieces() {
    let mut buffer = TextBuffer::from_string("abcdef", DefaultEOL::LF);
    buffer.insert(3, "XYZ").unwrap();
    assert_eq!(buffer.to_string(), "abcXYZdef");
    assert_eq!(buffer.piece_count(), 3);
}

#[test]
fn delete_rejoins_a_severed_pair() {
    // Deleting the text between a '\r' and a '\n' leaves them adjacent;
    // they must count as a single terminator afterwards.
    let mut buffer = TextBuffer::from_string("a\rX\nb", DefaultEOL::LF);
    assert_eq!(buffer.line_count(), 3);
    buffer.delete(2, 1).unwrap();
    assert_eq!(buffer.to_string(), "a\r\nb");
    assert_eq!(buffer.line_count(), 2);
}

#[test]
fn trailing_cr_takes_the_following_lf() {
    let mut buffer = TextBuffer::from_string("a\nb", DefaultEOL::LF);
    assert_eq!(buffer.line_count(), 2);
    buffer.insert(1, "x\r").unwrap();
    assert_eq!(buffer.to_string(), "ax\r\nb");
    assert_eq!(buffer.line_count(), 2);
}
