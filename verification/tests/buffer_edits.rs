use dip_core::info::DefaultEOL;
use dip_core::text_buffer::TextBuffer;

#[test]
fn buffer_basic_insert_and_delete() {
    let mut buffer = TextBuffer::from_string("This is a document with some text.", DefaultEOL::LF);
    assert_eq!(buffer.to_string(), "This is a document with some text.");

    buffer.insert(34, "This is some more text to insert at offset 34.").unwrap();
    assert_eq!(
        buffer.to_string(),
        "This is a document with some text.This is some more text to insert at offset 34."
    );
}

#[test]
fn buffer_more_inserts() {
    let mut buffer = TextBuffer::new(DefaultEOL::LF);

    buffer.insert(0, "AAA").unwrap();
    assert_eq!(buffer.to_string(), "AAA");
}

#[test]
fn text_buffer_basic_insert_and_delete() {
    let mut buffer = TextBuffer::from_string("This is a document with some text.", DefaultEOL::LF);
    assert_eq!(buffer.to_string(), "This is a document with some text.");

    buffer.insert(34, "This is some more text to insert at offset 34.").unwrap();
    assert_eq!(
        buffer.to_string(),
        "This is a document with some text.This is some more text to insert at offset 34."
    );
}

#[test]
fn text_buffer_more_inserts() {
    let mut buffer = TextBuffer::new(DefaultEOL::LF);

    buffer.insert(0, "AAA").unwrap();
    assert_eq!(buffer.to_string(), "AAA");
}
