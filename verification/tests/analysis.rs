use dip_core::buffer::{Buffer, BufferCursor};
use dip_core::command::{next_mode, Mode, ModeAction, ModeType};
use dip_core::info::{CharacterEncoding, DefaultEOL, TextBufferInfo, EOL};
use dip_core::text_buffer::TextBuffer;

#[test]
fn grapheme_length_counts_clusters_not_chars() {
    // An "e" followed by a combining acute accent is one user-visible
    // character made of two chars.
    let buffer = TextBuffer::from_string("e\u{301}", DefaultEOL::LF);
    assert_eq!(buffer.length(), 2);
    assert_eq!(buffer.grapheme_length(), 1);
    // A CR-LF pair is one grapheme cluster.
    let buffer = TextBuffer::from_string("a\r\nb", DefaultEOL::LF);
    assert_eq!(buffer.length(), 4);
    assert_eq!(buffer.grapheme_length(), 3);
}

#[test]
fn line_starts_follow_all_terminator_kinds() {
    let starts = Buffer::get_line_starts("ab\ncd\r\nef\rg");
    assert_eq!(starts, vec![0, 3, 7, 10]);
    let empty = Buffer::get_line_starts("");
    assert_eq!(empty, vec![0]);
}

#[test]
fn cursor_offsets_and_line_feed_counts() {
    let buffer = Buffer::from_text(String::from("ab\ncd\r\nef"));
    let start = BufferCursor::new(0, 0);
    let end = BufferCursor::new(2, 0);
    assert_eq!(buffer.offset(start), 0);
    assert_eq!(buffer.offset(end), 7);
    assert_eq!(buffer.get_line_feed_count(&start, &end), 2);
}

#[test]
fn eol_detection_prefers_the_majority() {
    let (info, _) = TextBufferInfo::from_string("a\r\nb\r\nc\nd", DefaultEOL::LF);
    assert_eq!(info.eol, EOL::CRLF);
    let (info, _) = TextBufferInfo::from_string("a\nb\nc\r\nd", DefaultEOL::LF);
    assert_eq!(info.eol, EOL::LF);
    // No terminators at all: the caller's default wins.
    let (info, _) = TextBufferInfo::from_string("abc", DefaultEOL::CRLF);
    assert_eq!(info.eol, EOL::CRLF);
    let (info, _) = TextBufferInfo::from_string("abc", DefaultEOL::LF);
    assert_eq!(info.eol, EOL::LF);
}

#[test]
fn bom_and_ascii_detection() {
    let (info, _) = TextBufferInfo::from_string("\u{feff}hello", DefaultEOL::LF);
    assert_eq!(info.encoding, CharacterEncoding::Utf8WithBom);
    assert!(!info.is_ascii);
    let (info, _) = TextBufferInfo::from_string("hello", DefaultEOL::LF);
    assert_eq!(info.encoding, CharacterEncoding::Utf8);
    assert!(info.is_ascii);
    assert!(info.should_check_crlf());
}

#[test]
fn mode_machine_transitions() {
    let normal = Mode(ModeType::Normal);
    let insert = next_mode(normal, ModeAction::InsertMode);
    assert_eq!(insert, Mode(ModeType::Insert));
    let back = next_mode(insert, ModeAction::NormalMode);
    assert_eq!(back, Mode(ModeType::Normal));
    // Other combinations stay put.
    assert_eq!(next_mode(normal, ModeAction::NormalMode), normal);
    assert_eq!(next_mode(insert, ModeAction::InsertMode), insert);
    assert_eq!(Mode::default(), Mode(ModeType::Normal));
}

#[test]
fn char_at_reads_through_pieces() {
    let mut buffer = TextBuffer::from_string("abc", DefaultEOL::LF);
    buffer.insert(1, "XY").unwrap();
    assert_eq!(buffer.to_string(), "aXYbc");
    assert_eq!(buffer.char_at(0), 'a');
    assert_eq!(buffer.char_at(1), 'X');
    assert_eq!(buffer.char_at(4), 'c');
}
