//! Backing buffers: an immutable string of text plus its line-start table.
//!
//! A buffer stores UTF-8 text and the sorted table of offsets at which
//! lines begin: offset `0`, then the offset just past each line
//! terminator. A [`BufferCursor`] addresses a position in the buffer as a
//! line index into that table plus a column past the line start.

use vstd::prelude::*;
use vstd::string::StrSliceExecFns;

use crate::textspec::{
    lemma_line_breaks_window_step, lemma_line_start_offsets_bounds, line_breaks,
    line_start_offsets, spec_line_starts,
};

verus! {

/// A `(line, column)` position inside one buffer: `line` indexes the
/// buffer's line-start table and `column` counts characters past that
/// line start.
#[derive(Clone, Copy, PartialEq, Eq, Structural, Debug, Default)]
pub struct BufferCursor {
    pub line: usize,
    pub column: usize,
}

impl BufferCursor {
    pub fn new(line: usize, column: usize) -> (c: BufferCursor)
        ensures
            c.line == line,
            c.column == column,
    {
        BufferCursor { line, column }
    }
}

/// Counts the line terminators of `s` whose first character lies in
/// `[a, b)`, pairing `"\r\n"` as one.
pub fn count_line_feeds(s: &str, a: usize, b: usize) -> (r: usize)
    requires
        a <= b <= s@.len(),
    ensures
        r == line_breaks(s@.subrange(a as int, b as int)),
{
    let mut count: usize = 0;
    let mut i: usize = a;
    while i < b
        invariant
            a <= i <= b <= s@.len(),
            count <= i - a,
            count + line_breaks(s@.subrange(i as int, b as int)) == line_breaks(
                s@.subrange(a as int, b as int),
            ),
        decreases b - i,
    {
        let c = s.get_char(i);
        proof {
            lemma_line_breaks_window_step(s@, i as int, b as int);
        }
        if c == '\r' {
            count = count + 1;
            if i + 1 < b && s.get_char(i + 1) == '\n' {
                i = i + 2;
            } else {
                i = i + 1;
            }
        } else if c == '\n' {
            count = count + 1;
            i = i + 1;
        } else {
            i = i + 1;
        }
    }
    proof {
        assert(s@.subrange(b as int, b as int) =~= Seq::<char>::empty());
    }
    count
}

/// An append-only string of text plus its sorted line-start table.
#[derive(Debug)]
pub struct Buffer {
    pub value: String,
    pub line_starts: Vec<usize>,
}

impl Buffer {
    /// The stored table is exactly the line-start table of the text.
    pub open spec fn wf(self) -> bool {
        &&& self.value@.len() <= usize::MAX
        &&& self.line_starts@.len() == spec_line_starts(self.value@).len()
        &&& forall|k: int|
            0 <= k < self.line_starts@.len() ==> self.line_starts@[k] == spec_line_starts(
                self.value@,
            )[k]
    }

    pub fn new(value: String, line_starts: Vec<usize>) -> (b: Buffer)
        ensures
            b.value == value,
            b.line_starts == line_starts,
    {
        Buffer { value, line_starts }
    }

    /// Builds a buffer over `value`, computing its line-start table.
    pub fn from_text(value: String) -> (b: Buffer)
        ensures
            b.wf(),
            b.value == value,
    {
        let line_starts = Buffer::get_line_starts(value.as_str());
        Buffer { value, line_starts }
    }

    /// Scans the text and returns its line-start table: `0`, then the
    /// offset just past each terminator, in increasing order.
    pub fn get_line_starts(value: &str) -> (v: Vec<usize>)
        ensures
            value@.len() <= usize::MAX,
            v@.len() == spec_line_starts(value@).len(),
            forall|k: int| 0 <= k < v@.len() ==> v@[k] == spec_line_starts(value@)[k],
    {
        let ghost s = value@;
        let ghost full = spec_line_starts(s);
        let mut v: Vec<usize> = Vec::new();
        v.push(0);
        let mut i: usize = 0;
        let n = value.unicode_len();
        proof {
            assert(line_start_offsets(s, 0).skip(0) =~= line_start_offsets(s, 0));
            assert(full[0] == 0);
        }
        while i < n
            invariant
                i <= n,
                s == value@,
                n == s.len(),
                full == spec_line_starts(s),
                v@.len() >= 1,
                v@.len() - 1 + line_start_offsets(s, i as int).len() == line_start_offsets(
                    s,
                    0,
                ).len(),
                forall|k: int| 0 <= k < v@.len() ==> v@[k] == full[k],
                line_start_offsets(s, 0).skip(v@.len() - 1) == line_start_offsets(s, i as int),
            decreases s.len() - i,
        {
            let ghost pre = line_start_offsets(s, i as int);
            let ghost old_m = v@.len() - 1;
            let c = value.get_char(i);
            if c == '\r' {
                if i + 1 < n && value.get_char(i + 1) == '\n' {
                    v.push(i + 2);
                    i = i + 2;
                } else {
                    v.push(i + 1);
                    i = i + 1;
                }
            } else if c == '\n' {
                v.push(i + 1);
                i = i + 1;
            } else {
                i = i + 1;
            }
            proof {
                let rest = line_start_offsets(s, i as int);
                if v@.len() > old_m + 1 {
                    // A terminator was recorded: the remaining offsets begin
                    // with the new scan position.
                    assert(pre == seq![i as int] + rest);
                    assert(pre[0] == i as int);
                    assert(pre.drop_first() =~= rest);
                    assert(line_start_offsets(s, 0).skip(old_m).drop_first() =~= line_start_offsets(
                        s,
                        0,
                    ).skip(old_m + 1));
                    assert(full[old_m + 1] == line_start_offsets(s, 0)[old_m]);
                    assert(line_start_offsets(s, 0)[old_m] == pre[0]);
                } else {
                    assert(pre == rest);
                }
            }
        }
        proof {
            assert(line_start_offsets(s, n as int) =~= Seq::<int>::empty());
        }
        v
    }

    /// The absolute offset a cursor addresses: the line start it names
    /// plus its column.
    pub fn offset(&self, cursor: BufferCursor) -> (r: usize)
        requires
            self.wf(),
            cursor.line < self.line_starts@.len(),
            spec_line_starts(self.value@)[cursor.line as int] + cursor.column
                <= self.value@.len(),
        ensures
            r == spec_line_starts(self.value@)[cursor.line as int] + cursor.column,
    {
        proof {
            lemma_line_start_offsets_bounds(self.value@, 0);
            let ghost table = spec_line_starts(self.value@);
            assert(self.line_starts@[cursor.line as int] == table[cursor.line as int]);
            if cursor.line >= 1 {
                assert(spec_line_starts(self.value@)[cursor.line as int] == line_start_offsets(
                    self.value@,
                    0,
                )[cursor.line - 1]);
            }
        }
        self.line_starts[cursor.line] + cursor.column
    }

    /// Counts the line terminators wholly contained between two cursor
    /// positions of this buffer.
    pub fn get_line_feed_count(&self, start: &BufferCursor, end: &BufferCursor) -> (r: usize)
        requires
            self.wf(),
            start.line < self.line_starts@.len(),
            end.line < self.line_starts@.len(),
            spec_line_starts(self.value@)[start.line as int] + start.column <= spec_line_starts(
                self.value@,
            )[end.line as int] + end.column,
            spec_line_starts(self.value@)[end.line as int] + end.column <= self.value@.len(),
        ensures
            r == line_breaks(
                self.value@.subrange(
                    spec_line_starts(self.value@)[start.line as int] + start.column,
                    spec_line_starts(self.value@)[end.line as int] + end.column,
                ),
            ),
    {
        let a = self.offset(*start);
        let b = self.offset(*end);
        count_line_feeds(self.value.as_str(), a, b)
    }
}

} // verus!
