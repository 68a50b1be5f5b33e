//! A document: a text buffer together with the path it was loaded from,
//! when any. Reading a file is the embedding application's concern; the
//! document itself only holds text.

use vstd::prelude::*;

use crate::info::DefaultEOL;
use crate::text_buffer::TextBuffer;

verus! {

/// An open document.
#[derive(Debug)]
pub struct Document {
    pub file_path: Option<String>,
    pub text_buffer: TextBuffer,
}

impl Document {
    /// A fresh, empty, unnamed document.
    pub fn new(default_eol: DefaultEOL) -> (d: Document)
        ensures
            d.text_buffer.wf(),
            d.text_buffer@ == Seq::<char>::empty(),
            d.file_path is None,
    {
        Document { file_path: None, text_buffer: TextBuffer::new(default_eol) }
    }

    /// A document over text already read from `file_path`.
    pub fn from_text(file_path: String, text: &str, default_eol: DefaultEOL) -> (d: Document)
        ensures
            d.text_buffer.wf(),
            d.text_buffer@ == text@,
            d.file_path == Some(file_path),
    {
        Document {
            file_path: Some(file_path),
            text_buffer: TextBuffer::from_string(text, default_eol),
        }
    }
}

} // verus!
