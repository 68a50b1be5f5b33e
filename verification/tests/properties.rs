use dip_core::info::DefaultEOL;
use dip_core::text_buffer::{BufferError, TextBuffer};

#[test]
fn inserting_empty_text_changes_nothing() {
    let mut buffer = TextBuffer::from_string("hello\nworld", DefaultEOL::LF);
    let before = buffer.to_string();
    for off in 0..(buffer.length() + 1) {
        buffer.insert(off, "").unwrap();
        assert_eq!(buffer.to_string(), before);
    }
}

#[test]
fn insert_then_delete_restores_text() {
    let mut buffer = TextBuffer::from_string("abcdef", DefaultEOL::LF);
    buffer.insert(3, "123").unwrap();
    buffer.delete(3, 3).unwrap();
    assert_eq!(buffer.to_string(), "abcdef");
    // Also across several pieces.
    buffer.insert(0, "xx").unwrap();
    buffer.insert(8, "yy").unwrap();
    buffer.delete(0, 2).unwrap();
    buffer.delete(6, 2).unwrap();
    assert_eq!(buffer.to_string(), "abcdef");
}

#[test]
fn cr_then_lf_makes_one_terminator()
{
    let mut buffer = TextBuffer::from_string("ab", DefaultEOL::LF);
    assert_eq!(buffer.line_count(), 1);
    buffer.insert(1, "\r").unwrap();
    buffer.insert(2, "\n").unwrap();
    assert_eq!(buffer.to_string(), "a\r\nb");
    assert_eq!(buffer.line_count(), 2);
}

#[test]
fn inserts_at_both_ends_succeed() {
    let mut buffer = TextBuffer::from_string("mid", DefaultEOL::LF);
    assert!(buffer.insert(0, "go").is_ok());
    let end = buffer.length();
    assert!(buffer.insert(end, "stop").is_ok());
    assert_eq!(buffer.to_string(), "gomidstop");
}

#[test]
fn long_insert_completes_in_one_operation() {
    let mut buffer = TextBuffer::from_string("ab", DefaultEOL::LF);
    let long = "x".repeat(10_000);
    buffer.insert(1, &long).unwrap();
    assert_eq!(buffer.length(), 10_002);
    let expected = format!("a{}b", long);
    assert_eq!(buffer.to_string(), expected);
}

#[test]
fn original_buffer_is_never_rewritten() {
    let mut buffer = TextBuffer::from_string("keep\nme", DefaultEOL::LF);
    assert_eq!(buffer.original_to_string(), "keep\nme");
    buffer.insert(4, "!!").unwrap();
    buffer.delete(0, 2).unwrap();
    assert_eq!(buffer.original_to_string(), "keep\nme");
}

#[test]
fn changed_buffer_is_append_only() {
    let mut buffer = TextBuffer::new(DefaultEOL::LF);
    buffer.insert(0, "one").unwrap();
    let first = buffer.changed_to_string();
    buffer.insert(3, "two").unwrap();
    let second = buffer.changed_to_string();
    assert!(second.starts_with(&first));
    buffer.delete(0, 4).unwrap();
    let third = buffer.changed_to_string();
    assert!(third.starts_with(&second));
}

#[test]
fn out_of_range_offsets_are_reported() {
    let mut buffer = TextBuffer::from_string("abc", DefaultEOL::LF);
    assert_eq!(buffer.insert(4, "x"), Err(BufferError::OffsetOutOfRange));
    assert_eq!(buffer.delete(2, 2), Err(BufferError::OffsetOutOfRange));
    assert_eq!(buffer.delete(4, 0), Err(BufferError::OffsetOutOfRange));
    // Nothing changed.
    assert_eq!(buffer.to_string(), "abc");
}

#[test]
fn typing_grows_one_piece() {
    let mut buffer = TextBuffer::new(DefaultEOL::LF);
    buffer.insert(0, "h").unwrap();
    buffer.insert(1, "e").unwrap();
    buffer.insert(2, "y").unwrap();
    assert_eq!(buffer.to_string(), "hey");
    // Consecutive typing at the end coalesces into a single piece.
    assert_eq!(buffer.piece_count(), 1);
}

#[test]
fn lookup_positions_are_stable_across_cache_hits() {
    let mut buffer = TextBuffer::from_string("abcdef", DefaultEOL::LF);
    let first = buffer.get_node_position(2);
    let second = buffer.get_node_position(2);
    assert_eq!(first.node_start_offset, 0);
    assert_eq!(first.remainder, 2);
    assert_eq!(second.node_start_offset, first.node_start_offset);
    assert_eq!(second.remainder, first.remainder);
}
